//! What the exporters write: file names, the Markdown and plain-text
//! documents, and the text of the PDF summary, with its word wrapping.
use vstd::prelude::*;
use vstd::utf8::encode_utf8;
use crate::models::{Project, ProjectView, StepView, StructureStep, step_views};
use crate::text::{
    byte_len, chars_of, decimal, decimal_value, lemma_decimal_reads_back, is_space, lines_from, strip_cr, words_from, join, join_with, lines, lines_of, owned, pending, push_char, push_decimal,
    repeat, repeat_char, strs, to_upper, uppercase, words, words_of,
};

verus! {

/// The formats a project can be exported to.
#[derive(Debug, Clone, Copy, PartialEq, Eq)]
pub enum ExportFormat {
    PdfSummary,
    Markdown,
    Json,
    PlainText,
}

/// What follows the project's id in the name of an exported file.
pub open spec fn file_suffix(format: ExportFormat) -> Seq<char> {
    match format {
        ExportFormat::PdfSummary => "_summary.pdf"@,
        ExportFormat::Markdown => ".md"@,
        ExportFormat::Json => "_export.json"@,
        ExportFormat::PlainText => ".txt"@,
    }
}

/// The format that an entry of the export menu stands for; `None` for
/// `Cancel` and anything else.
pub open spec fn format_of_choice(choice: Seq<char>) -> Option<ExportFormat> {
    if choice == "PDF Summary"@ {
        Some(ExportFormat::PdfSummary)
    } else if choice == "Markdown"@ {
        Some(ExportFormat::Markdown)
    } else if choice == "JSON"@ {
        Some(ExportFormat::Json)
    } else if choice == "Plain Text"@ {
        Some(ExportFormat::PlainText)
    } else {
        None
    }
}

/// `s`, or `fallback` when `s` is empty.
pub open spec fn or_else(s: Seq<char>, fallback: Seq<char>) -> Seq<char> {
    if s.len() == 0 {
        fallback
    } else {
        s
    }
}

/// The lines that the Markdown export writes for the beat at `i` (from 0).
pub open spec fn markdown_beat(i: int, s: StepView) -> Seq<Seq<char>> {
    seq![
        "### "@ + decimal((i + 1) as nat) + ". "@ + s.name + " ("@ + s.target + ")"@,
        "*Prompt: "@ + s.prompt + "*"@,
        seq![],
        or_else(s.content, "*(No content)*"@),
        seq![],
    ]
}

/// The lines of the Markdown export of `p`.
pub open spec fn markdown_lines(p: ProjectView) -> Seq<Seq<char>> {
    seq![
        "# "@ + or_else(p.metadata.title, "Untitled Project"@),
        seq![],
        "**App:** "@ + p.app_name,
        "**Medium:** "@ + p.medium,
        "**Structure:** "@ + p.structure_name,
        "**Genre:** "@ + p.metadata.genre,
        "**Estimated Length:** "@ + p.metadata.estimated_length,
        seq![],
        "## Logline / Premise"@,
        or_else(p.metadata.logline, "N/A"@),
        seq![],
        "## Story Beats"@,
        seq![],
    ] + Seq::new(p.steps.len(), |i: int| markdown_beat(i, p.steps[i])).flatten_alt()
}

/// The lines that the plain-text export writes for the beat at `i` (from 0).
pub open spec fn text_beat(i: int, s: StepView) -> Seq<Seq<char>> {
    seq![
        decimal((i + 1) as nat) + ". "@ + uppercase(s.name) + " ("@ + s.target + ")"@,
        "Prompt: "@ + s.prompt,
        repeat('-', 20),
        or_else(s.content, "(No content)"@),
        seq![],
    ]
}

/// The lines of the plain-text export of `p`.
pub open spec fn text_lines(p: ProjectView) -> Seq<Seq<char>> {
    seq![
        "STRUCTURE YOUR STORY: "@ + uppercase(p.metadata.title),
        repeat('=', 50),
        "Medium: "@ + p.medium,
        "Structure: "@ + p.structure_name,
        "Genre: "@ + p.metadata.genre,
        "Length: "@ + p.metadata.estimated_length,
        seq![],
        "LOGLINE:"@,
        p.metadata.logline,
        seq![],
        "STORY BEATS:"@,
        repeat('-', 50),
        seq![],
    ] + Seq::new(p.steps.len(), |i: int| text_beat(i, p.steps[i])).flatten_alt()
}

/// Greedy filling of lines with `ws`, `cur` being the line begun: a word
/// goes on the line when the line, a space and the word take at most `max`
/// bytes; else the line is closed (even when it is empty) and the word
/// begins the next one.
pub open spec fn wrap_words(ws: Seq<Seq<char>>, cur: Seq<char>, max: nat) -> Seq<Seq<char>>
    decreases ws.len(),
{
    if ws.len() == 0 {
        pending(cur)
    } else if byte_len(cur) + byte_len(ws[0]) + 1 > max {
        seq![cur] + wrap_words(ws.drop_first(), ws[0], max)
    } else if cur.len() == 0 {
        wrap_words(ws.drop_first(), ws[0], max)
    } else {
        wrap_words(ws.drop_first(), cur + seq![' '] + ws[0], max)
    }
}

/// The wrapped lines of one line of text; an empty line stays one empty line.
pub open spec fn wrap_paragraph(p: Seq<char>, max: nat) -> Seq<Seq<char>> {
    if p.len() == 0 {
        seq![seq![]]
    } else {
        wrap_words(words(p), seq![], max)
    }
}

/// `text` wrapped at `max` bytes, line by line.
pub open spec fn wrapped(text: Seq<char>, max: nat) -> Seq<Seq<char>> {
    Seq::new(lines(text).len(), |i: int| wrap_paragraph(lines(text)[i], max)).flatten_alt()
}

/// A beat name without a leading number: the part after the first `". "`
/// when the name begins with an ASCII digit and holds `". "`.
pub open spec fn without_number(name: Seq<char>) -> Seq<char> {
    if name.len() > 0 && '0' <= name[0] <= '9' && exists|i: int|
        0 <= i < name.len() - 1 && #[trigger] name[i] == '.' && name[i + 1] == ' ' {
        let i = choose|i: int|
            0 <= i < name.len() - 1 && #[trigger] name[i] == '.' && name[i + 1] == ' ' && forall|k: int|
                0 <= k < i ==> !(#[trigger] name[k] == '.' && name[k + 1] == ' ');
        name.skip(i + 2)
    } else {
        name
    }
}

/// What the PDF summary shows of one beat.
pub struct SummaryBeat {
    /// Number and upper-cased name, the number in the name dropped.
    pub title: String,
    /// The target, in round brackets.
    pub target: String,
    /// The content (or `(Empty)`), wrapped at 82 bytes.
    pub lines: Vec<String>,
}

pub struct SummaryBeatView {
    pub title: Seq<char>,
    pub target: Seq<char>,
    pub lines: Seq<Seq<char>>,
}

impl View for SummaryBeat {
    type V = SummaryBeatView;

    open spec fn view(&self) -> SummaryBeatView {
        SummaryBeatView { title: self.title@, target: self.target@, lines: strs(self.lines@) }
    }
}

/// The text of the PDF summary of a project, in the order it is laid out.
pub struct Summary {
    /// Shown at the top right of each page.
    pub structure_name: String,
    /// The upper-cased title.
    pub title: String,
    /// Upper-cased medium, genre and length, as far as given, between `"  |  "`.
    pub subtitle: String,
    /// The logline wrapped at 75 bytes.
    pub logline: Vec<String>,
    pub beats: Vec<SummaryBeat>,
}

/// What the PDF summary shows of the beat at `i` (from 0).
pub open spec fn summary_beat(i: int, s: StepView) -> SummaryBeatView {
    SummaryBeatView {
        title: decimal((i + 1) as nat) + ". "@ + uppercase(without_number(s.name)),
        target: "("@ + s.target + ")"@,
        lines: wrapped(or_else(s.content, "(Empty)"@), 82),
    }
}

/// The parts of the subtitle: the upper-cased medium, then genre and length
/// where they are not empty.
pub open spec fn subtitle_parts(p: ProjectView) -> Seq<Seq<char>> {
    seq![uppercase(p.medium)] + (if p.metadata.genre.len() > 0 {
        seq![p.metadata.genre]
    } else {
        seq![]
    }) + (if p.metadata.estimated_length.len() > 0 {
        seq![p.metadata.estimated_length]
    } else {
        seq![]
    })
}

/// `r` is the summary of `p`.
pub open spec fn is_summary_of(r: Summary, p: ProjectView) -> bool {
    &&& r.structure_name@ == p.structure_name
    &&& r.title@ == uppercase(p.metadata.title)
    &&& r.subtitle@ == join(subtitle_parts(p), "  |  "@)
    &&& strs(r.logline@) == wrapped(p.metadata.logline, 75)
    &&& r.beats@.len() == p.steps.len()
    &&& forall|i: int| 0 <= i < p.steps.len() ==> #[trigger] r.beats@[i]@ == summary_beat(i, p.steps[i])
}

/// `a` followed by `b`.
fn cat(a: &str, b: &str) -> (r: String)
    ensures
        r@ == a@ + b@,
{
    let mut r = owned(a);
    r.append(b);
    r
}

/// `s`, or `fallback` when `s` is empty.
fn or_else_str(s: &str, fallback: &str) -> (r: String)
    ensures
        r@ == or_else(s@, fallback@),
{
    if s.is_empty() {
        owned(fallback)
    } else {
        owned(s)
    }
}

/// `n` in decimal followed by `". "`.
fn numbered(n: usize) -> (r: String)
    ensures
        r@ == decimal(n as nat) + ". "@,
{
    let mut r = String::new();
    push_decimal(&mut r, n);
    r.append(". ");
    assert(r@ =~= decimal(n as nat) + ". "@);
    r
}

/// Pushes `line` onto `lines`.
fn push_line(lines: &mut Vec<String>, line: String)
    ensures
        strs(final(lines)@) == strs(old(lines)@).push(line@),
{
    lines.push(line);
    assert(strs(lines@) =~= strs(old(lines)@).push(line@));
}

/// The first `i + 1` blocks, concatenated, are the first `i` followed by block `i`.
proof fn lemma_blocks_step(blocks: Seq<Seq<Seq<char>>>, i: int)
    requires
        0 <= i < blocks.len(),
    ensures
        blocks.take(i + 1).flatten_alt() == blocks.take(i).flatten_alt() + blocks[i],
{
    assert(blocks.take(i + 1).drop_last() =~= blocks.take(i));
}

/// Greedy wrapping of the words of one non-empty line.
fn wrap_line_words(ws: &Vec<String>, max_chars: usize, out: &mut Vec<String>)
    ensures
        strs(final(out)@) == strs(old(out)@) + wrap_words(strs(ws@), seq![], max_chars as nat),
{
    let ghost all = strs(ws@);
    let mut cur = String::new();
    let mut j: usize = 0;
    assert(all.skip(0) =~= all);
    while j < ws.len()
        invariant
            all == strs(ws@),
            j <= ws.len(),
            strs(out@) + wrap_words(all.skip(j as int), cur@, max_chars as nat) == strs(old(out)@)
                + wrap_words(all, seq![], max_chars as nat),
        decreases ws.len() - j,
    {
        let w = &ws[j];
        let ghost rest = all.skip(j as int);
        assert(rest[0] == w@);
        assert(rest.drop_first() =~= all.skip(j + 1));
        let wl = w.as_str().as_bytes().len();
        let cl = cur.as_str().as_bytes().len();
        if wl >= max_chars || cl >= max_chars - wl {
            let ghost before = strs(out@);
            let ghost line = cur@;
            push_line(out, cur);
            assert(before.push(line) + wrap_words(all.skip(j + 1), w@, max_chars as nat) =~= before + (
            seq![line] + wrap_words(all.skip(j + 1), w@, max_chars as nat)));
            cur = w.clone();
        } else {
            let ghost old_cur = cur@;
            if !cur.as_str().is_empty() {
                push_char(&mut cur, ' ');
            }
            cur.append(w.as_str());
            assert(old_cur.len() > 0 ==> cur@ =~= old_cur + seq![' '] + w@);
            assert(old_cur.len() == 0 ==> cur@ =~= w@);
        }
        j = j + 1;
    }
    if !cur.as_str().is_empty() {
        push_line(out, cur);
    } else {
        assert(strs(out@) + pending(cur@) =~= strs(out@));
    }
}

/// The beats of a Markdown export.
fn push_markdown_beats(steps: &Vec<StructureStep>, lines: &mut Vec<String>)
    ensures
        strs(final(lines)@) == strs(old(lines)@) + Seq::new(
            steps@.len(),
            |i: int| markdown_beat(i, step_views(steps@)[i]),
        ).flatten_alt(),
{
    let ghost blocks = Seq::new(steps@.len(), |i: int| markdown_beat(i, step_views(steps@)[i]));
    let mut i: usize = 0;
    assert(blocks.take(0) =~= seq![]);
    while i < steps.len()
        invariant
            i <= steps.len(),
            blocks == Seq::new(steps@.len(), |i: int| markdown_beat(i, step_views(steps@)[i])),
            strs(lines@) == strs(old(lines)@) + blocks.take(i as int).flatten_alt(),
        decreases steps.len() - i,
    {
        let s = &steps[i];
        let ghost before = strs(lines@);
        let mut head = owned("### ");
        head.append(numbered(i + 1).as_str());
        head.append(s.name.as_str());
        head.append(" (");
        head.append(s.target.as_str());
        head.append(")");
        assert(head@ =~= "### "@ + decimal((i + 1) as nat) + ". "@ + s.name@ + " ("@ + s.target@ + ")"@);
        push_line(lines, head);
        let mut prompt = cat("*Prompt: ", s.prompt.as_str());
        prompt.append("*");
        push_line(lines, prompt);
        push_line(lines, String::new());
        push_line(lines, or_else_str(s.content.as_str(), "*(No content)*"));
        push_line(lines, String::new());
        proof {
            lemma_blocks_step(blocks, i as int);
            assert(blocks[i as int] =~= markdown_beat(i as int, s@));
            assert(strs(lines@) =~= before + blocks[i as int]);
        }
        i = i + 1;
    }
    assert(blocks.take(steps.len() as int) =~= blocks);
}

/// The beats of a plain-text export.
fn push_text_beats(steps: &Vec<StructureStep>, lines: &mut Vec<String>)
    ensures
        strs(final(lines)@) == strs(old(lines)@) + Seq::new(
            steps@.len(),
            |i: int| text_beat(i, step_views(steps@)[i]),
        ).flatten_alt(),
{
    let ghost blocks = Seq::new(steps@.len(), |i: int| text_beat(i, step_views(steps@)[i]));
    let mut i: usize = 0;
    assert(blocks.take(0) =~= seq![]);
    while i < steps.len()
        invariant
            i <= steps.len(),
            blocks == Seq::new(steps@.len(), |i: int| text_beat(i, step_views(steps@)[i])),
            strs(lines@) == strs(old(lines)@) + blocks.take(i as int).flatten_alt(),
        decreases steps.len() - i,
    {
        let s = &steps[i];
        let ghost before = strs(lines@);
        let mut head = numbered(i + 1);
        head.append(to_upper(s.name.as_str()).as_str());
        head.append(" (");
        head.append(s.target.as_str());
        head.append(")");
        push_line(lines, head);
        push_line(lines, cat("Prompt: ", s.prompt.as_str()));
        push_line(lines, repeat_char('-', 20));
        push_line(lines, or_else_str(s.content.as_str(), "(No content)"));
        push_line(lines, String::new());
        proof {
            lemma_blocks_step(blocks, i as int);
            assert(blocks[i as int] =~= text_beat(i as int, s@));
            assert(strs(lines@) =~= before + blocks[i as int]);
        }
        i = i + 1;
    }
    assert(blocks.take(steps.len() as int) =~= blocks);
}

/// A string of the characters `cs[from..]`.
fn string_from(cs: &Vec<char>, from: usize) -> (r: String)
    requires
        from <= cs@.len(),
    ensures
        r@ == cs@.skip(from as int),
{
    let mut r = String::new();
    let mut k = from;
    while k < cs.len()
        invariant
            from <= k <= cs@.len(),
            r@ == cs@.subrange(from as int, k as int),
        decreases cs.len() - k,
    {
        push_char(&mut r, cs[k]);
        k = k + 1;
        assert(r@ =~= cs@.subrange(from as int, k as int));
    }
    assert(cs@.subrange(from as int, cs@.len() as int) =~= cs@.skip(from as int));
    r
}

/// A beat name without a leading number (see `without_number`).
fn strip_number(name: &str) -> (r: String)
    ensures
        r@ == without_number(name@),
{
    let cs = chars_of(name);
    if cs.len() == 0 || !('0' <= cs[0] && cs[0] <= '9') {
        return owned(name);
    }
    let mut i: usize = 0;
    while i < cs.len() - 1
        invariant
            cs@ == name@,
            cs@.len() > 0,
            '0' <= cs@[0] <= '9',
            i <= cs@.len(),
            forall|k: int| 0 <= k < i && k + 1 < cs@.len() ==> !(#[trigger] cs@[k] == '.' && cs@[k + 1] == ' '),
        decreases cs.len() - i,
    {
        if cs[i] == '.' && cs[i + 1] == ' ' {
            proof {
                let n = name@;
                assert(n[i as int] == '.' && n[i + 1] == ' ');
                assert(exists|c: int| 0 <= c < n.len() - 1 && #[trigger] n[c] == '.' && n[c + 1] == ' ');
                assert(exists|c: int|
                    0 <= c < n.len() - 1 && #[trigger] n[c] == '.' && n[c + 1] == ' ' && forall|k: int|
                        0 <= k < c ==> !(#[trigger] n[k] == '.' && n[k + 1] == ' '));
                let c = choose|c: int|
                    0 <= c < n.len() - 1 && #[trigger] n[c] == '.' && n[c + 1] == ' ' && forall|k: int|
                        0 <= k < c ==> !(#[trigger] n[k] == '.' && n[k + 1] == ' ');
                assert(0 <= i < n.len() - 1 && n[i as int] == '.' && n[i + 1] == ' ' && forall|k: int|
                        0 <= k < i ==> !(#[trigger] n[k] == '.' && n[k + 1] == ' '));
                if c < i {
                    assert(!(n[c] == '.' && n[c + 1] == ' '));
                } else if c > i {
                    assert(!(n[i as int] == '.' && n[i + 1] == ' '));
                }
                assert(without_number(n) == n.skip(c + 2));
            }
            return string_from(&cs, i + 2);
        }
        i = i + 1;
    }
    owned(name)
}

/// Upper-cased medium, genre and length, as far as given, between `"  |  "`.
fn subtitle(project: &Project) -> (r: String)
    ensures
        r@ == join(subtitle_parts(project@), "  |  "@),
{
    let mut parts: Vec<String> = Vec::new();
    push_line(&mut parts, to_upper(project.medium.as_str()));
    if !project.metadata.genre.as_str().is_empty() {
        push_line(&mut parts, project.metadata.genre.clone());
    }
    if !project.metadata.estimated_length.as_str().is_empty() {
        push_line(&mut parts, project.metadata.estimated_length.clone());
    }
    assert(strs(parts@) =~= subtitle_parts(project@));
    join_with(&parts, "  |  ")
}

/// The exporters of a project.
pub struct Exporters;

impl ExportFormat {
    /// The format of an entry of the export menu; `None` for `Cancel`.
    pub fn from_choice(choice: &str) -> (r: Option<ExportFormat>)
        ensures
            r == format_of_choice(choice@),
    {
        let c = owned(choice);
        if c == owned("PDF Summary") {
            Some(ExportFormat::PdfSummary)
        } else if c == owned("Markdown") {
            Some(ExportFormat::Markdown)
        } else if c == owned("JSON") {
            Some(ExportFormat::Json)
        } else if c == owned("Plain Text") {
            Some(ExportFormat::PlainText)
        } else {
            None
        }
    }
}

impl Exporters {
    /// The name of the file that exporting `project` to `format` writes.
    pub fn file_name(project: &Project, format: ExportFormat) -> (r: String)
        ensures
            r@ == project.id@ + file_suffix(format),
    {
        let suffix = match format {
            ExportFormat::PdfSummary => "_summary.pdf",
            ExportFormat::Markdown => ".md",
            ExportFormat::Json => "_export.json",
            ExportFormat::PlainText => ".txt",
        };
        cat(project.id.as_str(), suffix)
    }

    /// The lines of the Markdown export.
    pub fn markdown_lines(project: &Project) -> (r: Vec<String>)
        ensures
            strs(r@) == markdown_lines(project@),
    {
        let p = project;
        let mut lines: Vec<String> = Vec::new();
        push_line(&mut lines, cat("# ", or_else_str(p.metadata.title.as_str(), "Untitled Project").as_str()));
        push_line(&mut lines, String::new());
        push_line(&mut lines, cat("**App:** ", p.app_name.as_str()));
        push_line(&mut lines, cat("**Medium:** ", p.medium.as_str()));
        push_line(&mut lines, cat("**Structure:** ", p.structure_name.as_str()));
        push_line(&mut lines, cat("**Genre:** ", p.metadata.genre.as_str()));
        push_line(&mut lines, cat("**Estimated Length:** ", p.metadata.estimated_length.as_str()));
        push_line(&mut lines, String::new());
        push_line(&mut lines, owned("## Logline / Premise"));
        push_line(&mut lines, or_else_str(p.metadata.logline.as_str(), "N/A"));
        push_line(&mut lines, String::new());
        push_line(&mut lines, owned("## Story Beats"));
        push_line(&mut lines, String::new());
        push_markdown_beats(&p.steps, &mut lines);
        assert(strs(lines@) =~= markdown_lines(project@));
        lines
    }

    /// The Markdown document: its lines joined by `'\n'`.
    pub fn markdown_document(project: &Project) -> (r: String)
        ensures
            r@ == join(markdown_lines(project@), "\n"@),
    {
        join_with(&Self::markdown_lines(project), "\n")
    }

    /// The lines of the plain-text export.
    pub fn text_lines(project: &Project) -> (r: Vec<String>)
        ensures
            strs(r@) == text_lines(project@),
    {
        let p = project;
        let mut lines: Vec<String> = Vec::new();
        push_line(&mut lines, cat("STRUCTURE YOUR STORY: ", to_upper(p.metadata.title.as_str()).as_str()));
        push_line(&mut lines, repeat_char('=', 50));
        push_line(&mut lines, cat("Medium: ", p.medium.as_str()));
        push_line(&mut lines, cat("Structure: ", p.structure_name.as_str()));
        push_line(&mut lines, cat("Genre: ", p.metadata.genre.as_str()));
        push_line(&mut lines, cat("Length: ", p.metadata.estimated_length.as_str()));
        push_line(&mut lines, String::new());
        push_line(&mut lines, owned("LOGLINE:"));
        push_line(&mut lines, p.metadata.logline.clone());
        push_line(&mut lines, String::new());
        push_line(&mut lines, owned("STORY BEATS:"));
        push_line(&mut lines, repeat_char('-', 50));
        push_line(&mut lines, String::new());
        push_text_beats(&p.steps, &mut lines);
        assert(strs(lines@) =~= text_lines(project@));
        lines
    }

    /// The plain-text document: its lines joined by `'\n'`.
    pub fn text_document(project: &Project) -> (r: String)
        ensures
            r@ == join(text_lines(project@), "\n"@),
    {
        join_with(&Self::text_lines(project), "\n")
    }

    /// The text of the PDF summary of `project`.
    pub fn summary(project: &Project) -> (r: Summary)
        ensures
            is_summary_of(r, project@),
    {
        let mut beats: Vec<SummaryBeat> = Vec::new();
        let mut i: usize = 0;
        while i < project.steps.len()
            invariant
                i <= project.steps.len(),
                beats@.len() == i,
                forall|k: int| 0 <= k < i ==> #[trigger] beats@[k]@ == summary_beat(k, project@.steps[k]),
            decreases project.steps.len() - i,
        {
            let s = &project.steps[i];
            let mut title = numbered(i + 1);
            title.append(to_upper(strip_number(s.name.as_str()).as_str()).as_str());
            let mut target = cat("(", s.target.as_str());
            target.append(")");
            let content = or_else_str(s.content.as_str(), "(Empty)");
            let lines = Self::wrap_text(content.as_str(), 82);
            let beat = SummaryBeat { title, target, lines };
            assert(beat@ == summary_beat(i as int, project@.steps[i as int]));
            beats.push(beat);
            i = i + 1;
        }
        Summary {
            structure_name: project.structure_name.clone(),
            title: to_upper(project.metadata.title.as_str()),
            subtitle: subtitle(project),
            logline: Self::wrap_text(project.metadata.logline.as_str(), 75),
            beats,
        }
    }

    /// `text` wrapped line by line at `max_chars` bytes: an empty line stays
    /// empty; the words of any other line fill lines greedily.
    pub fn wrap_text(text: &str, max_chars: usize) -> (r: Vec<String>)
        ensures
            strs(r@) == wrapped(text@, max_chars as nat),
    {
        let paragraphs = lines_of(text);
        let ghost ps = strs(paragraphs@);
        let ghost blocks = Seq::new(ps.len(), |i: int| wrap_paragraph(ps[i], max_chars as nat));
        let mut out: Vec<String> = Vec::new();
        let mut i: usize = 0;
        assert(blocks.take(0) =~= seq![]);
        while i < paragraphs.len()
            invariant
                ps == strs(paragraphs@),
                ps == lines(text@),
                blocks == Seq::new(ps.len(), |i: int| wrap_paragraph(ps[i], max_chars as nat)),
                i <= paragraphs.len(),
                strs(out@) == blocks.take(i as int).flatten_alt(),
            decreases paragraphs.len() - i,
        {
            let p = &paragraphs[i];
            let ghost before = strs(out@);
            if p.as_str().is_empty() {
                push_line(&mut out, String::new());
                assert(strs(out@) =~= before + seq![seq![]]);
            } else {
                let ws = words_of(p.as_str());
                wrap_line_words(&ws, max_chars, &mut out);
            }
            proof {
                lemma_blocks_step(blocks, i as int);
                assert(blocks[i as int] == wrap_paragraph(p@, max_chars as nat));
            }
            i = i + 1;
        }
        assert(blocks.take(paragraphs.len() as int) =~= blocks);
        out
    }
}


/// Bytes of a concatenation are the bytes of its parts.
proof fn lemma_byte_len_concat(a: Seq<char>, b: Seq<char>)
    ensures
        byte_len(a + b) == byte_len(a) + byte_len(b),
    decreases a.len(),
{
    if a.len() > 0 {
        lemma_byte_len_concat(a.drop_first(), b);
        assert((a + b).drop_first() =~= a.drop_first() + b);
        assert((a + b)[0] == a[0]);
    } else {
        assert(a + b =~= b);
    }
}

/// A space takes one byte.
proof fn lemma_space_byte_len()
    ensures
        byte_len(seq![' ']) == 1,
{
    let s = seq![' '];
    assert(s.drop_first() =~= Seq::<char>::empty());
    assert(encode_utf8(Seq::<char>::empty()) =~= Seq::<u8>::empty());
    assert(encode_utf8(s) == vstd::utf8::encode_scalar(s[0] as u32) + encode_utf8(s.drop_first()));
    assert((' ' as u32) == 32);
    assert(vstd::utf8::has_width_1_encoding(' ' as u32));
}

/// No word holds a space.
proof fn lemma_words_from_have_no_space(s: Seq<char>, cur: Seq<char>)
    requires
        !cur.contains(' '),
    ensures
        forall|k: int| 0 <= k < words_from(s, cur).len() ==> !(#[trigger] words_from(s, cur)[k]).contains(' '),
    decreases s.len(),
{
    if s.len() == 0 {
        assert(words_from(s, cur) == pending(cur));
    } else {
        if is_space(s[0]) {
            lemma_words_from_have_no_space(s.drop_first(), seq![]);
            let rest = words_from(s.drop_first(), seq![]);
            assert forall|k: int| 0 <= k < words_from(s, cur).len() implies !(#[trigger] words_from(s, cur)[k]).contains(' ') by {
                if k >= pending(cur).len() {
                    assert(words_from(s, cur)[k] == rest[k - pending(cur).len()]);
                }
            }
        } else {
            assert(s[0] != ' ');
            assert(!cur.push(s[0]).contains(' ')) by {
                if cur.push(s[0]).contains(' ') {
                    let k = choose|k: int| 0 <= k < cur.push(s[0]).len() && cur.push(s[0])[k] == ' ';
                    if k < cur.len() {
                        assert(cur[k] == ' ');
                    }
                }
            }
            lemma_words_from_have_no_space(s.drop_first(), cur.push(s[0]));
            assert(words_from(s, cur) == words_from(s.drop_first(), cur.push(s[0])));
        }
    }
}

/// A line fits when it holds a space: it is then at most `max` bytes long.
pub open spec fn fits(line: Seq<char>, max: nat) -> bool {
    line.contains(' ') ==> byte_len(line) <= max
}

proof fn lemma_wrap_words_fit(ws: Seq<Seq<char>>, cur: Seq<char>, max: nat)
    requires
        forall|k: int| 0 <= k < ws.len() ==> !(#[trigger] ws[k]).contains(' '),
        fits(cur, max),
    ensures
        forall|k: int| 0 <= k < wrap_words(ws, cur, max).len() ==> fits(#[trigger] wrap_words(ws, cur, max)[k], max),
    decreases ws.len(),
{
    if ws.len() > 0 {
        let w = ws[0];
        let rest = ws.drop_first();
        assert(!w.contains(' '));
        assert forall|k: int| 0 <= k < rest.len() implies !(#[trigger] rest[k]).contains(' ') by {
            assert(rest[k] == ws[k + 1]);
        }
        if byte_len(cur) + byte_len(w) + 1 > max {
            lemma_wrap_words_fit(rest, w, max);
            let tail = wrap_words(rest, w, max);
            assert(wrap_words(ws, cur, max) == seq![cur] + tail);
            assert forall|k: int| 0 <= k < wrap_words(ws, cur, max).len() implies fits(#[trigger] wrap_words(ws, cur, max)[k], max) by {
                if k > 0 {
                    assert(wrap_words(ws, cur, max)[k] == tail[k - 1]);
                } else {
                    assert(wrap_words(ws, cur, max)[k] == cur);
                }
            }
        } else if cur.len() == 0 {
            lemma_wrap_words_fit(rest, w, max);
            assert(wrap_words(ws, cur, max) == wrap_words(rest, w, max));
        } else {
            let joined = cur + seq![' '] + w;
            lemma_byte_len_concat(cur, seq![' ']);
            lemma_byte_len_concat(cur + seq![' '], w);
            lemma_space_byte_len();
            assert(byte_len(joined) <= max);
            lemma_wrap_words_fit(rest, joined, max);
            assert(wrap_words(ws, cur, max) == wrap_words(rest, joined, max));
        }
    } else {
        assert(wrap_words(ws, cur, max) == pending(cur));
        assert forall|k: int| 0 <= k < wrap_words(ws, cur, max).len() implies fits(#[trigger] wrap_words(ws, cur, max)[k], max) by {
            assert(wrap_words(ws, cur, max)[k] == cur);
        }
    }
}

/// Whatever lies in a concatenation of blocks lies in one of them.
proof fn lemma_flatten_alt_member<A>(blocks: Seq<Seq<A>>, k: int)
    requires
        0 <= k < blocks.flatten_alt().len(),
    ensures
        exists|i: int, j: int| 0 <= i < blocks.len() && 0 <= j < blocks[i].len() && blocks.flatten_alt()[k] == #[trigger] blocks[i][j],
    decreases blocks.len(),
{
    if blocks.len() > 0 {
        let front = blocks.drop_last().flatten_alt();
        if k < front.len() {
            lemma_flatten_alt_member(blocks.drop_last(), k);
            let (i, j) = choose|i: int, j: int| 0 <= i < blocks.drop_last().len() && 0 <= j < blocks.drop_last()[i].len() && front[k] == #[trigger] blocks.drop_last()[i][j];
            assert(blocks[i][j] == blocks.flatten_alt()[k]);
        } else {
            let i = blocks.len() - 1;
            let j = k - front.len();
            assert(blocks[i][j] == blocks.flatten_alt()[k]);
        }
    }
}

/// Wrapping never leaves a line of several words longer than the width: a
/// wrapped line that holds a space takes at most `max` bytes.
pub proof fn lemma_wrapped_lines_fit(text: Seq<char>, max: nat)
    ensures
        forall|k: int| 0 <= k < wrapped(text, max).len() ==> fits(#[trigger] wrapped(text, max)[k], max),
{
    let ls = lines(text);
    let blocks = Seq::new(ls.len(), |i: int| wrap_paragraph(ls[i], max));
    assert forall|i: int, j: int| 0 <= i < blocks.len() && 0 <= j < blocks[i].len() implies fits(#[trigger] blocks[i][j], max) by {
        if ls[i].len() == 0 {
            assert(blocks[i][j] =~= Seq::<char>::empty());
        } else {
            lemma_words_from_have_no_space(ls[i], seq![]);
            lemma_wrap_words_fit(words(ls[i]), seq![], max);
        }
    }
    assert forall|k: int| 0 <= k < wrapped(text, max).len() implies fits(#[trigger] wrapped(text, max)[k], max) by {
        lemma_flatten_alt_member(blocks, k);
    }
}


/// The words of each line, in order, one after the other.
pub open spec fn words_of_lines(ls: Seq<Seq<char>>) -> Seq<Seq<char>> {
    ls.map_values(|l: Seq<char>| words(l)).flatten_alt()
}

proof fn lemma_flatten_alt_single<A>(x: Seq<A>)
    ensures
        seq![x].flatten_alt() == x,
{
    let m = seq![x];
    assert(m.drop_last() =~= Seq::<Seq<A>>::empty());
    assert(m.drop_last().flatten_alt() =~= Seq::<A>::empty());
    assert(m.flatten_alt() == m.drop_last().flatten_alt() + m.last());
    assert(Seq::<A>::empty() + x =~= x);
}

proof fn lemma_flatten_alt_concat<A>(x: Seq<Seq<A>>, y: Seq<Seq<A>>)
    ensures
        (x + y).flatten_alt() == x.flatten_alt() + y.flatten_alt(),
    decreases y.len(),
{
    if y.len() == 0 {
        assert(x + y =~= x);
        assert(x.flatten_alt() + y.flatten_alt() =~= x.flatten_alt());
    } else {
        lemma_flatten_alt_concat(x, y.drop_last());
        assert((x + y).drop_last() =~= x + y.drop_last());
        assert((x + y).last() == y.last());
        assert(x.flatten_alt() + y.drop_last().flatten_alt() + y.last() =~= x.flatten_alt() + (
        y.drop_last().flatten_alt() + y.last()));
    }
}

proof fn lemma_words_of_lines_concat(a: Seq<Seq<char>>, b: Seq<Seq<char>>)
    ensures
        words_of_lines(a + b) == words_of_lines(a) + words_of_lines(b),
{
    let f = |l: Seq<char>| words(l);
    assert((a + b).map_values(f) =~= a.map_values(f) + b.map_values(f));
    lemma_flatten_alt_concat(a.map_values(f), b.map_values(f));
}

/// A white-space character between two texts separates their words.
proof fn lemma_words_around_blank(a: Seq<char>, sp: char, b: Seq<char>, cur: Seq<char>)
    requires
        is_space(sp),
    ensures
        words_from(a + seq![sp] + b, cur) == words_from(a, cur) + words_from(b, seq![]),
    decreases a.len(),
{
    let whole = a + seq![sp] + b;
    if a.len() == 0 {
        assert(whole[0] == sp);
        assert(whole.drop_first() =~= b);
        assert(words_from(a, cur) == pending(cur));
    } else {
        assert(whole[0] == a[0]);
        assert(whole.drop_first() =~= a.drop_first() + seq![sp] + b);
        if is_space(a[0]) {
            lemma_words_around_blank(a.drop_first(), sp, b, seq![]);
            assert(pending(cur) + words_from(a.drop_first(), seq![]) + words_from(b, seq![]) =~= pending(cur)
                + (words_from(a.drop_first(), seq![]) + words_from(b, seq![])));
        } else {
            lemma_words_around_blank(a.drop_first(), sp, b, cur.push(a[0]));
        }
    }
}

/// A space between two texts separates their words.
proof fn lemma_words_around_space(a: Seq<char>, b: Seq<char>, cur: Seq<char>)
    ensures
        words_from(a + seq![' '] + b, cur) == words_from(a, cur) + words_from(b, seq![]),
{
    assert(is_space(' '));
    lemma_words_around_blank(a, ' ', b, cur);
}

/// A run of characters without white space is read whole.
proof fn lemma_words_of_run(w: Seq<char>, cur: Seq<char>)
    requires
        forall|k: int| 0 <= k < w.len() ==> !is_space(#[trigger] w[k]),
    ensures
        words_from(w, cur) == pending(cur + w),
    decreases w.len(),
{
    if w.len() == 0 {
        assert(cur + w =~= cur);
    } else {
        assert(!is_space(w[0]));
        assert forall|k: int| 0 <= k < w.drop_first().len() implies !is_space(#[trigger] w.drop_first()[k]) by {
            assert(w.drop_first()[k] == w[k + 1]);
        }
        lemma_words_of_run(w.drop_first(), cur.push(w[0]));
        assert(cur.push(w[0]) + w.drop_first() =~= cur + w);
    }
}

/// Each word is a non-empty run of characters that are not white space.
proof fn lemma_words_from_are_runs(s: Seq<char>, cur: Seq<char>)
    requires
        forall|k: int| 0 <= k < cur.len() ==> !is_space(#[trigger] cur[k]),
    ensures
        forall|i: int| 0 <= i < words_from(s, cur).len() ==> (#[trigger] words_from(s, cur)[i]).len() > 0 && forall|k: int|
            0 <= k < words_from(s, cur)[i].len() ==> !is_space(#[trigger] words_from(s, cur)[i][k]),
    decreases s.len(),
{
    if s.len() == 0 {
        assert(words_from(s, cur) == pending(cur));
    } else if is_space(s[0]) {
        lemma_words_from_are_runs(s.drop_first(), seq![]);
        let rest = words_from(s.drop_first(), seq![]);
        assert(words_from(s, cur) == pending(cur) + rest);
        assert forall|i: int| 0 <= i < words_from(s, cur).len() implies (#[trigger] words_from(s, cur)[i]).len() > 0 && forall|k: int|
            0 <= k < words_from(s, cur)[i].len() ==> !is_space(#[trigger] words_from(s, cur)[i][k]) by {
            if i >= pending(cur).len() {
                assert(words_from(s, cur)[i] == rest[i - pending(cur).len()]);
            }
        }
    } else {
        assert forall|k: int| 0 <= k < cur.push(s[0]).len() implies !is_space(#[trigger] cur.push(s[0])[k]) by {
            if k < cur.len() {
                assert(cur.push(s[0])[k] == cur[k]);
            }
        }
        lemma_words_from_are_runs(s.drop_first(), cur.push(s[0]));
        assert(words_from(s, cur) == words_from(s.drop_first(), cur.push(s[0])));
    }
}

proof fn lemma_wrap_words_keep_words(ws: Seq<Seq<char>>, cur: Seq<char>, max: nat)
    requires
        forall|i: int| 0 <= i < ws.len() ==> (#[trigger] ws[i]).len() > 0 && forall|k: int|
            0 <= k < ws[i].len() ==> !is_space(#[trigger] ws[i][k]),
    ensures
        words_of_lines(wrap_words(ws, cur, max)) == words(cur) + ws,
    decreases ws.len(),
{
    if ws.len() == 0 {
        assert(wrap_words(ws, cur, max) == pending(cur));
        if cur.len() == 0 {
            assert(pending(cur).map_values(|l: Seq<char>| words(l)) =~= Seq::<Seq<Seq<char>>>::empty());
            assert(words(cur) == pending(cur + Seq::<char>::empty())) by {
                lemma_words_of_run(Seq::<char>::empty(), cur);
            }
            assert(words(cur) + ws =~= Seq::<Seq<char>>::empty());
        } else {
            let m = pending(cur).map_values(|l: Seq<char>| words(l));
            assert(m =~= seq![words(cur)]);
            assert(m.drop_last() =~= Seq::<Seq<Seq<char>>>::empty());
            assert(words(cur) + ws =~= words(cur));
            lemma_flatten_alt_single(words(cur));
            assert(m.flatten_alt() =~= words(cur));
        }
    } else {
        let w = ws[0];
        let rest = ws.drop_first();
        assert forall|i: int| 0 <= i < rest.len() implies (#[trigger] rest[i]).len() > 0 && forall|k: int|
            0 <= k < rest[i].len() ==> !is_space(#[trigger] rest[i][k]) by {
            assert(rest[i] == ws[i + 1]);
        }
        assert forall|k: int| 0 <= k < w.len() implies !is_space(#[trigger] w[k]) by {
            assert(w[k] == ws[0][k]);
        }
        lemma_words_of_run(w, seq![]);
        assert(seq![] + w =~= w);
        assert(words(w) == seq![w]);
        assert(ws =~= seq![w] + rest);
        if byte_len(cur) + byte_len(w) + 1 > max {
            lemma_wrap_words_keep_words(rest, w, max);
            assert(wrap_words(ws, cur, max) == seq![cur] + wrap_words(rest, w, max));
            lemma_words_of_lines_concat(seq![cur], wrap_words(rest, w, max));
            let m = seq![cur].map_values(|l: Seq<char>| words(l));
            assert(m =~= seq![words(cur)]);
            assert(m.drop_last() =~= Seq::<Seq<Seq<char>>>::empty());
            lemma_flatten_alt_single(words(cur));
            assert(words_of_lines(seq![cur]) =~= words(cur));
            assert(words(cur) + (seq![w] + rest) =~= words(cur) + ws);
        } else if cur.len() == 0 {
            lemma_wrap_words_keep_words(rest, w, max);
            assert(wrap_words(ws, cur, max) == wrap_words(rest, w, max));
            lemma_words_of_run(cur, seq![]);
            assert(words(cur) =~= Seq::<Seq<char>>::empty());
            assert(words(cur) + ws =~= seq![w] + rest);
        } else {
            let joined = cur + seq![' '] + w;
            lemma_wrap_words_keep_words(rest, joined, max);
            assert(wrap_words(ws, cur, max) == wrap_words(rest, joined, max));
            lemma_words_around_space(cur, w, seq![]);
            assert(words(joined) == words(cur) + words(w));
            assert(words(cur) + seq![w] + rest =~= words(cur) + ws);
        }
    }
}

/// Wrapping keeps the words of the text, in order, and adds none: the
/// words of the wrapped lines are the words of the text's lines.
pub proof fn lemma_wrapping_keeps_words(text: Seq<char>, max: nat)
    ensures
        words_of_lines(wrapped(text, max)) == words_of_lines(lines(text)),
{
    let ls = lines(text);
    let blocks = Seq::new(ls.len(), |i: int| wrap_paragraph(ls[i], max));
    lemma_blocks_keep_words(ls, blocks, max, ls.len() as int);
    assert(blocks.take(ls.len() as int) =~= blocks);
    assert(ls.take(ls.len() as int) =~= ls);
}

proof fn lemma_blocks_keep_words(ls: Seq<Seq<char>>, blocks: Seq<Seq<Seq<char>>>, max: nat, n: int)
    requires
        0 <= n <= ls.len(),
        blocks == Seq::new(ls.len(), |i: int| wrap_paragraph(ls[i], max)),
    ensures
        words_of_lines(blocks.take(n).flatten_alt()) == words_of_lines(ls.take(n)),
    decreases n,
{
    if n == 0 {
        assert(blocks.take(0) =~= Seq::<Seq<Seq<char>>>::empty());
        assert(ls.take(0) =~= Seq::<Seq<char>>::empty());
        assert(Seq::<Seq<char>>::empty().map_values(|l: Seq<char>| words(l)) =~= Seq::<Seq<Seq<char>>>::empty());
    } else {
        lemma_blocks_keep_words(ls, blocks, max, n - 1);
        let p = ls[n - 1];
        assert(blocks.take(n).drop_last() =~= blocks.take(n - 1));
        assert(blocks.take(n).last() == wrap_paragraph(p, max));
        lemma_words_of_lines_concat(blocks.take(n - 1).flatten_alt(), wrap_paragraph(p, max));
        assert(ls.take(n) =~= ls.take(n - 1) + seq![p]);
        lemma_words_of_lines_concat(ls.take(n - 1), seq![p]);
        let m = seq![p].map_values(|l: Seq<char>| words(l));
        assert(m =~= seq![words(p)]);
        assert(m.drop_last() =~= Seq::<Seq<Seq<char>>>::empty());
        lemma_flatten_alt_single(words(p));
        assert(words_of_lines(seq![p]) =~= words(p));
        if p.len() == 0 {
            assert(wrap_paragraph(p, max) == seq![Seq::<char>::empty()]);
            let m2 = seq![Seq::<char>::empty()].map_values(|l: Seq<char>| words(l));
            lemma_words_of_run(Seq::<char>::empty(), seq![]);
            assert(words(Seq::<char>::empty()) =~= Seq::<Seq<char>>::empty());
            assert(m2 =~= seq![Seq::<Seq<char>>::empty()]);
            assert(m2.drop_last() =~= Seq::<Seq<Seq<char>>>::empty());
            lemma_flatten_alt_single(Seq::<Seq<char>>::empty());
            assert(words_of_lines(wrap_paragraph(p, max)) =~= Seq::<Seq<char>>::empty());
            lemma_words_of_run(p, seq![]);
            assert(words(p) =~= Seq::<Seq<char>>::empty());
        } else {
            lemma_words_from_are_runs(p, seq![]);
            lemma_wrap_words_keep_words(words(p), seq![], max);
            lemma_words_of_run(Seq::<char>::empty(), seq![]);
            assert(words(Seq::<char>::empty()) =~= Seq::<Seq<char>>::empty());
            assert(words(Seq::<char>::empty()) + words(p) =~= words(p));
        }
    }
}


/// The words of `cur + s` are those of the lines that `s` completes.
proof fn lemma_lines_keep_words(s: Seq<char>, cur: Seq<char>)
    ensures
        words_of_lines(lines_from(s, cur)) == words(cur + s),
    decreases s.len(),
{
    lemma_words_of_run(Seq::<char>::empty(), seq![]);
    assert(words(Seq::<char>::empty()) =~= Seq::<Seq<char>>::empty());
    if s.len() == 0 {
        assert(lines_from(s, cur) == pending(cur));
        assert(cur + s =~= cur);
        if cur.len() == 0 {
            assert(pending(cur).map_values(|l: Seq<char>| words(l)) =~= Seq::<Seq<Seq<char>>>::empty());
            assert(cur =~= Seq::<char>::empty());
        } else {
            assert(pending(cur).map_values(|l: Seq<char>| words(l)) =~= seq![words(cur)]);
            lemma_flatten_alt_single(words(cur));
        }
    } else if s[0] == '\n' {
        let rest = s.drop_first();
        lemma_lines_keep_words(rest, seq![]);
        assert(seq![] + rest =~= rest);
        assert(lines_from(s, cur) == seq![strip_cr(cur)] + lines_from(rest, seq![]));
        lemma_words_of_lines_concat(seq![strip_cr(cur)], lines_from(rest, seq![]));
        assert(seq![strip_cr(cur)].map_values(|l: Seq<char>| words(l)) =~= seq![words(strip_cr(cur))]);
        lemma_flatten_alt_single(words(strip_cr(cur)));
        assert(is_space('\n'));
        assert(cur + s =~= cur + seq!['\n'] + rest);
        lemma_words_around_blank(cur, '\n', rest, seq![]);
        if cur.len() > 0 && cur.last() == '\r' {
            let c = cur.drop_last();
            assert(is_space('\r'));
            assert(cur =~= c + seq!['\r'] + Seq::<char>::empty());
            lemma_words_around_blank(c, '\r', Seq::<char>::empty(), seq![]);
            assert(words(c) + Seq::<Seq<char>>::empty() =~= words(c));
        }
    } else {
        let rest = s.drop_first();
        lemma_lines_keep_words(rest, cur.push(s[0]));
        assert(lines_from(s, cur) == lines_from(rest, cur.push(s[0])));
        assert(cur.push(s[0]) + rest =~= cur + s);
    }
}

/// Splitting a text into lines keeps its words: the words of its lines,
/// one line after the other, are the words of the text.
pub proof fn lemma_lines_keep_words_of_text(text: Seq<char>)
    ensures
        words_of_lines(lines(text)) == words(text),
{
    lemma_lines_keep_words(text, seq![]);
    assert(Seq::<char>::empty() + text =~= text);
}

/// Wrapping keeps the words of the text itself, in order: the words of the
/// wrapped lines are the words of the text.
pub proof fn lemma_wrapping_keeps_words_of_text(text: Seq<char>, max: nat)
    ensures
        words_of_lines(wrapped(text, max)) == words(text),
{
    lemma_wrapping_keeps_words(text, max);
    lemma_lines_keep_words_of_text(text);
}


/// Each line that greedy filling closes is too full for the first word of
/// the next one; a line begun with words keeps its first word first.
proof fn lemma_wrap_words_greedy(ws: Seq<Seq<char>>, cur: Seq<char>, max: nat)
    requires
        forall|i: int| 0 <= i < ws.len() ==> (#[trigger] ws[i]).len() > 0 && forall|k: int|
            0 <= k < ws[i].len() ==> !is_space(#[trigger] ws[i][k]),
        cur.len() == 0 || words(cur).len() > 0,
    ensures
        forall|k: int| 0 <= k < wrap_words(ws, cur, max).len() - 1 ==> {
            &&& words(#[trigger] wrap_words(ws, cur, max)[k + 1]).len() > 0
            &&& byte_len(wrap_words(ws, cur, max)[k]) + 1 + byte_len(words(wrap_words(ws, cur, max)[k + 1])[0]) > max
        },
        cur.len() > 0 ==> {
            &&& wrap_words(ws, cur, max).len() > 0
            &&& words(wrap_words(ws, cur, max)[0]).len() > 0
            &&& words(wrap_words(ws, cur, max)[0])[0] == words(cur)[0]
        },
    decreases ws.len(),
{
    let r = wrap_words(ws, cur, max);
    if ws.len() == 0 {
        assert(r == pending(cur));
    } else {
        let w = ws[0];
        let rest = ws.drop_first();
        assert forall|i: int| 0 <= i < rest.len() implies (#[trigger] rest[i]).len() > 0 && forall|k: int|
            0 <= k < rest[i].len() ==> !is_space(#[trigger] rest[i][k]) by {
            assert(rest[i] == ws[i + 1]);
        }
        assert forall|k: int| 0 <= k < w.len() implies !is_space(#[trigger] w[k]) by {
            assert(w[k] == ws[0][k]);
        }
        lemma_words_of_run(w, seq![]);
        assert(seq![] + w =~= w);
        assert(words(w) == seq![w]);
        if byte_len(cur) + byte_len(w) + 1 > max {
            lemma_wrap_words_greedy(rest, w, max);
            let t = wrap_words(rest, w, max);
            assert(r == seq![cur] + t);
            assert forall|k: int| 0 <= k < r.len() - 1 implies {
                &&& words(#[trigger] r[k + 1]).len() > 0
                &&& byte_len(r[k]) + 1 + byte_len(words(r[k + 1])[0]) > max
            } by {
                assert(r[k + 1] == t[k]);
                if k > 0 {
                    assert(r[k] == t[k - 1]);
                    assert(t[(k - 1) + 1] == t[k]);
                } else {
                    assert(r[0] == cur);
                }
            }
            if cur.len() > 0 {
                assert(r[0] == cur);
            }
        } else if cur.len() == 0 {
            lemma_wrap_words_greedy(rest, w, max);
            assert(r == wrap_words(rest, w, max));
        } else {
            let joined = cur + seq![' '] + w;
            lemma_words_around_space(cur, w, seq![]);
            assert(words(joined) == words(cur) + seq![w]);
            assert(words(joined)[0] == words(cur)[0]);
            lemma_wrap_words_greedy(rest, joined, max);
            assert(r == wrap_words(rest, joined, max));
        }
    }
}

/// Wrapping fills lines greedily: in the wrapped lines of one line of text,
/// each line but the last is followed by a line that begins with a word, and
/// that word, after a space, would not have fit within `max` bytes on it.
/// So no two neighbouring lines could have been joined by a space.
pub proof fn lemma_wrapping_is_greedy(p: Seq<char>, max: nat)
    ensures
        forall|k: int| 0 <= k < wrap_paragraph(p, max).len() - 1 ==> {
            &&& words(#[trigger] wrap_paragraph(p, max)[k + 1]).len() > 0
            &&& byte_len(wrap_paragraph(p, max)[k]) + 1 + byte_len(words(wrap_paragraph(p, max)[k + 1])[0])
                > max
        },
{
    if p.len() > 0 {
        lemma_words_from_are_runs(p, seq![]);
        lemma_wrap_words_greedy(words(p), seq![], max);
    }
}

/// A text with no line break is one line.
proof fn lemma_single_line(s: Seq<char>, cur: Seq<char>)
    requires
        forall|k: int| 0 <= k < s.len() ==> s[k] != '\n',
        s.len() > 0 || cur.len() > 0,
    ensures
        lines_from(s, cur) == seq![cur + s],
    decreases s.len(),
{
    if s.len() == 0 {
        assert(cur + s =~= cur);
    } else {
        assert(s[0] != '\n');
        lemma_single_line(s.drop_first(), cur.push(s[0]));
        assert(cur.push(s[0]) + s.drop_first() =~= cur + s);
    }
}

/// A non-empty text with no line break is wrapped greedily as a whole: each
/// wrapped line but the last is too full for the first word of the next.
pub proof fn lemma_wrapped_line_is_greedy(text: Seq<char>, max: nat)
    requires
        text.len() > 0,
        forall|k: int| 0 <= k < text.len() ==> text[k] != '\n',
    ensures
        forall|k: int| 0 <= k < wrapped(text, max).len() - 1 ==> {
            &&& words(#[trigger] wrapped(text, max)[k + 1]).len() > 0
            &&& byte_len(wrapped(text, max)[k]) + 1 + byte_len(words(wrapped(text, max)[k + 1])[0]) > max
        },
{
    lemma_single_line(text, seq![]);
    assert(Seq::<char>::empty() + text =~= text);
    let blocks = Seq::new(lines(text).len(), |i: int| wrap_paragraph(lines(text)[i], max));
    assert(blocks =~= seq![wrap_paragraph(text, max)]);
    lemma_flatten_alt_single(wrap_paragraph(text, max));
    lemma_wrapping_is_greedy(text, max);
}

/// Greedy filling writes each line as its words with one space between.
proof fn lemma_wrap_words_spaced(ws: Seq<Seq<char>>, cur: Seq<char>, max: nat)
    requires
        forall|i: int| 0 <= i < ws.len() ==> (#[trigger] ws[i]).len() > 0 && forall|k: int|
            0 <= k < ws[i].len() ==> !is_space(#[trigger] ws[i][k]),
        cur == join(words(cur), " "@),
    ensures
        forall|k: int| 0 <= k < wrap_words(ws, cur, max).len() ==> #[trigger] wrap_words(ws, cur, max)[k] == join(
            words(wrap_words(ws, cur, max)[k]),
            " "@,
        ),
    decreases ws.len(),
{
    let r = wrap_words(ws, cur, max);
    if ws.len() == 0 {
        assert(r == pending(cur));
    } else {
        let w = ws[0];
        let rest = ws.drop_first();
        assert forall|i: int| 0 <= i < rest.len() implies (#[trigger] rest[i]).len() > 0 && forall|k: int|
            0 <= k < rest[i].len() ==> !is_space(#[trigger] rest[i][k]) by {
            assert(rest[i] == ws[i + 1]);
        }
        assert forall|k: int| 0 <= k < w.len() implies !is_space(#[trigger] w[k]) by {
            assert(w[k] == ws[0][k]);
        }
        lemma_words_of_run(w, seq![]);
        assert(seq![] + w =~= w);
        assert(words(w) == seq![w]);
        assert(join(seq![w], " "@) == w);
        if byte_len(cur) + byte_len(w) + 1 > max {
            lemma_wrap_words_spaced(rest, w, max);
            let t = wrap_words(rest, w, max);
            assert(r == seq![cur] + t);
            assert forall|k: int| 0 <= k < r.len() implies #[trigger] r[k] == join(words(r[k]), " "@) by {
                if k > 0 {
                    assert(r[k] == t[k - 1]);
                }
            }
        } else if cur.len() == 0 {
            lemma_wrap_words_spaced(rest, w, max);
            assert(r == wrap_words(rest, w, max));
        } else {
            let joined = cur + seq![' '] + w;
            lemma_words_around_space(cur, w, seq![]);
            let cw = words(cur);
            assert(words(joined) == cw + seq![w]);
            assert(cw.len() > 0);
            let l = cw + seq![w];
            assert(l.drop_last() =~= cw);
            assert(join(l, " "@) == join(cw, " "@) + " "@ + w);
            reveal_strlit(" ");
            assert(cur + " "@ + w =~= joined);
            lemma_wrap_words_spaced(rest, joined, max);
            assert(r == wrap_words(rest, joined, max));
        }
    }
}

/// Wrapping puts exactly one space between neighbouring words of a line:
/// each wrapped line is its own words joined by single spaces.
pub proof fn lemma_wrapped_lines_are_spaced_words(text: Seq<char>, max: nat)
    ensures
        forall|k: int| 0 <= k < wrapped(text, max).len() ==> #[trigger] wrapped(text, max)[k] == join(
            words(wrapped(text, max)[k]),
            " "@,
        ),
{
    let ls = lines(text);
    let blocks = Seq::new(ls.len(), |i: int| wrap_paragraph(ls[i], max));
    lemma_words_of_run(Seq::<char>::empty(), seq![]);
    assert(words(Seq::<char>::empty()) =~= Seq::<Seq<char>>::empty());
    assert forall|i: int, j: int| 0 <= i < blocks.len() && 0 <= j < blocks[i].len() implies #[trigger] blocks[i][j]
        == join(words(blocks[i][j]), " "@) by {
        if ls[i].len() == 0 {
            assert(blocks[i][j] =~= Seq::<char>::empty());
        } else {
            lemma_words_from_are_runs(ls[i], seq![]);
            lemma_wrap_words_spaced(words(ls[i]), seq![], max);
        }
    }
    assert forall|k: int| 0 <= k < wrapped(text, max).len() implies #[trigger] wrapped(text, max)[k] == join(
        words(wrapped(text, max)[k]),
        " "@,
    ) by {
        lemma_flatten_alt_member(blocks, k);
    }
}

/// Blocks of five lines, one after the other: line `j` of block `i` stands
/// at `5 * i + j`.
proof fn lemma_flatten_fives<A>(blocks: Seq<Seq<A>>)
    requires
        forall|i: int| 0 <= i < blocks.len() ==> (#[trigger] blocks[i]).len() == 5,
    ensures
        blocks.flatten_alt().len() == 5 * blocks.len(),
        forall|i: int, j: int| 0 <= i < blocks.len() && 0 <= j < 5 ==> blocks.flatten_alt()[5 * i + j] == #[trigger] blocks[i][j],
    decreases blocks.len(),
{
    if blocks.len() > 0 {
        let front = blocks.drop_last();
        assert forall|i: int| 0 <= i < front.len() implies (#[trigger] front[i]).len() == 5 by {
            assert(front[i] == blocks[i]);
        }
        lemma_flatten_fives(front);
        let f = blocks.flatten_alt();
        assert(f == front.flatten_alt() + blocks.last());
        assert forall|i: int, j: int| 0 <= i < blocks.len() && 0 <= j < 5 implies f[5 * i + j] == #[trigger] blocks[i][j] by {
            if i < blocks.len() - 1 {
                assert(front[i] == blocks[i]);
                assert(front.flatten_alt()[5 * i + j] == front[i][j]);
            } else {
                assert(5 * i + j - 5 * front.len() == j);
            }
        }
    } else {
        assert(blocks.flatten_alt() =~= Seq::<A>::empty());
    }
}

/// The Markdown export: thirteen lines of heading (the title or
/// `Untitled Project`, the app, medium, structure, genre and length, the
/// logline or `N/A`), then five lines for each beat in order: `### `, the
/// beat's position counted from 1, `. `, its name and its target in round
/// brackets; its prompt in italics; an empty line; its whole content, or
/// `*(No content)*` when it has none; an empty line.
pub proof fn lemma_markdown_layout(p: ProjectView)
    ensures
        markdown_lines(p).len() == 13 + 5 * p.steps.len(),
        markdown_lines(p)[0] == "# "@ + (if p.metadata.title.len() == 0 { "Untitled Project"@ } else { p.metadata.title }),
        markdown_lines(p)[2] == "**App:** "@ + p.app_name,
        markdown_lines(p)[3] == "**Medium:** "@ + p.medium,
        markdown_lines(p)[4] == "**Structure:** "@ + p.structure_name,
        markdown_lines(p)[5] == "**Genre:** "@ + p.metadata.genre,
        markdown_lines(p)[6] == "**Estimated Length:** "@ + p.metadata.estimated_length,
        markdown_lines(p)[9] == (if p.metadata.logline.len() == 0 { "N/A"@ } else { p.metadata.logline }),
        forall|i: int| 0 <= i < p.steps.len() ==> {
            &&& markdown_lines(p)[13 + 5 * i] == "### "@ + decimal((i + 1) as nat) + ". "@ + (#[trigger] p.steps[i]).name
                + " ("@ + p.steps[i].target + ")"@
            &&& markdown_lines(p)[13 + 5 * i + 1] == "*Prompt: "@ + p.steps[i].prompt + "*"@
            &&& markdown_lines(p)[13 + 5 * i + 2] == Seq::<char>::empty()
            &&& markdown_lines(p)[13 + 5 * i + 3] == (if p.steps[i].content.len() == 0 {
                "*(No content)*"@
            } else {
                p.steps[i].content
            })
            &&& markdown_lines(p)[13 + 5 * i + 4] == Seq::<char>::empty()
        },
{
    let blocks = Seq::new(p.steps.len(), |i: int| markdown_beat(i, p.steps[i]));
    lemma_flatten_fives(blocks);
    let l = markdown_lines(p);
    assert forall|i: int| 0 <= i < p.steps.len() implies {
        &&& l[13 + 5 * i] == "### "@ + decimal((i + 1) as nat) + ". "@ + (#[trigger] p.steps[i]).name + " ("@
            + p.steps[i].target + ")"@
        &&& l[13 + 5 * i + 1] == "*Prompt: "@ + p.steps[i].prompt + "*"@
        &&& l[13 + 5 * i + 2] == Seq::<char>::empty()
        &&& l[13 + 5 * i + 3] == (if p.steps[i].content.len() == 0 {
            "*(No content)*"@
        } else {
            p.steps[i].content
        })
        &&& l[13 + 5 * i + 4] == Seq::<char>::empty()
    } by {
        let b = markdown_beat(i, p.steps[i]);
        assert(blocks[i] == b);
        assert(l[13 + 5 * i] == blocks[i][0]);
        assert(l[13 + 5 * i + 1] == blocks[i][1]);
        assert(l[13 + 5 * i + 2] == blocks[i][2]);
        assert(l[13 + 5 * i + 3] == blocks[i][3]);
        assert(l[13 + 5 * i + 4] == blocks[i][4]);
    }
}

/// Beats of the Markdown export carry their positions in full: the heading
/// of the beat at `i` is `### `, then a run of decimal digits that reads as
/// `i + 1`, then `.`; so no two beats are numbered alike.
pub proof fn lemma_markdown_numbers_beats(p: ProjectView, i: int)
    requires
        0 <= i < p.steps.len(),
    ensures
        ({
            let h = markdown_lines(p)[13 + 5 * i];
            let n = decimal((i + 1) as nat).len() as int;
            &&& h.len() > 4 + n
            &&& h.take(4) == "### "@
            &&& forall|k: int| 4 <= k < 4 + n ==> '0' <= #[trigger] h[k] <= '9'
            &&& h[4 + n] == '.'
            &&& decimal_value(h.subrange(4, 4 + n)) == i + 1
        }),
{
    lemma_markdown_layout(p);
    assert(p.steps[i] == p.steps[i]);
    let d = decimal((i + 1) as nat);
    lemma_decimal_reads_back((i + 1) as nat);
    let h = markdown_lines(p)[13 + 5 * i];
    let n = d.len() as int;
    reveal_strlit("### ");
    reveal_strlit(". ");
    let rest = p.steps[i].name + " ("@ + p.steps[i].target + ")"@;
    assert(h =~= "### "@ + d + ". "@ + rest);
    assert(h.take(4) =~= "### "@);
    assert(h.subrange(4, 4 + n) =~= d);
    assert forall|k: int| 4 <= k < 4 + n implies '0' <= #[trigger] h[k] <= '9' by {
        assert(h[k] == d[k - 4]);
    }
    assert(h[4 + n] == '.');
}

/// The plain-text export: thirteen lines of heading (the upper-cased title,
/// medium, structure, genre, length and the logline as it is), then five
/// lines for each beat in order: its position counted from 1, `. `, its
/// upper-cased name and its target in round brackets; `Prompt: ` and its
/// prompt; twenty dashes; its whole content as it is, line breaks and all,
/// or `(No content)` when it has none; an empty line.
pub proof fn lemma_text_layout(p: ProjectView)
    ensures
        text_lines(p).len() == 13 + 5 * p.steps.len(),
        text_lines(p)[0] == "STRUCTURE YOUR STORY: "@ + uppercase(p.metadata.title),
        text_lines(p)[2] == "Medium: "@ + p.medium,
        text_lines(p)[3] == "Structure: "@ + p.structure_name,
        text_lines(p)[4] == "Genre: "@ + p.metadata.genre,
        text_lines(p)[5] == "Length: "@ + p.metadata.estimated_length,
        text_lines(p)[8] == p.metadata.logline,
        forall|i: int| 0 <= i < p.steps.len() ==> {
            &&& text_lines(p)[13 + 5 * i] == decimal((i + 1) as nat) + ". "@ + uppercase((#[trigger] p.steps[i]).name)
                + " ("@ + p.steps[i].target + ")"@
            &&& text_lines(p)[13 + 5 * i + 1] == "Prompt: "@ + p.steps[i].prompt
            &&& text_lines(p)[13 + 5 * i + 2] == "--------------------"@
            &&& text_lines(p)[13 + 5 * i + 3] == (if p.steps[i].content.len() == 0 {
                "(No content)"@
            } else {
                p.steps[i].content
            })
            &&& text_lines(p)[13 + 5 * i + 4] == Seq::<char>::empty()
        },
{
    let blocks = Seq::new(p.steps.len(), |i: int| text_beat(i, p.steps[i]));
    lemma_flatten_fives(blocks);
    assert forall|i: int| 0 <= i < p.steps.len() implies {
        &&& text_lines(p)[13 + 5 * i] == decimal((i + 1) as nat) + ". "@ + uppercase((#[trigger] p.steps[i]).name)
            + " ("@ + p.steps[i].target + ")"@
        &&& text_lines(p)[13 + 5 * i + 1] == "Prompt: "@ + p.steps[i].prompt
        &&& text_lines(p)[13 + 5 * i + 2] == "--------------------"@
        &&& text_lines(p)[13 + 5 * i + 3] == (if p.steps[i].content.len() == 0 {
            "(No content)"@
        } else {
            p.steps[i].content
        })
        &&& text_lines(p)[13 + 5 * i + 4] == Seq::<char>::empty()
    } by {
        lemma_text_beat_at(p, blocks, i);
    }
}

proof fn lemma_text_beat_at(p: ProjectView, blocks: Seq<Seq<Seq<char>>>, i: int)
    requires
        0 <= i < p.steps.len(),
        blocks == Seq::new(p.steps.len(), |i: int| text_beat(i, p.steps[i])),
        blocks.flatten_alt().len() == 5 * blocks.len(),
        forall|i: int, j: int| 0 <= i < blocks.len() && 0 <= j < 5 ==> blocks.flatten_alt()[5 * i + j] == #[trigger] blocks[i][j],
    ensures
        text_lines(p)[13 + 5 * i] == decimal((i + 1) as nat) + ". "@ + uppercase(p.steps[i].name) + " ("@ + p.steps[i].target
            + ")"@,
        text_lines(p)[13 + 5 * i + 1] == "Prompt: "@ + p.steps[i].prompt,
        text_lines(p)[13 + 5 * i + 2] == "--------------------"@,
        text_lines(p)[13 + 5 * i + 3] == (if p.steps[i].content.len() == 0 {
            "(No content)"@
        } else {
            p.steps[i].content
        }),
        text_lines(p)[13 + 5 * i + 4] == Seq::<char>::empty(),
{
    let f = blocks.flatten_alt();
    let head = text_lines(p).take(13);
    assert(text_lines(p) =~= head + f);
    assert(head.len() == 13);
    assert(blocks[i] == text_beat(i, p.steps[i]));
    reveal_strlit("--------------------");
    assert(repeat('-', 20) =~= "--------------------"@);
    assert(text_lines(p)[13 + 5 * i] == blocks[i][0]);
    assert(text_lines(p)[13 + 5 * i + 1] == blocks[i][1]);
    assert(text_lines(p)[13 + 5 * i + 2] == blocks[i][2]);
    assert(text_lines(p)[13 + 5 * i + 3] == blocks[i][3]);
    assert(text_lines(p)[13 + 5 * i + 4] == blocks[i][4]);
}

/// The pieces of a list of one, two or three parts joined by `sep`.
proof fn lemma_join_small(list: Seq<Seq<char>>, sep: Seq<char>)
    requires
        1 <= list.len() <= 3,
    ensures
        list.len() == 1 ==> join(list, sep) == list[0],
        list.len() == 2 ==> join(list, sep) == list[0] + sep + list[1],
        list.len() == 3 ==> join(list, sep) == list[0] + sep + list[1] + sep + list[2],
{
    if list.len() >= 2 {
        let front = list.drop_last();
        assert(join(list, sep) == join(front, sep) + sep + list.last());
        if list.len() == 2 {
            assert(front.len() == 1);
            assert(join(front, sep) == front[0]);
            assert(front[0] == list[0]);
        } else {
            let ff = front.drop_last();
            assert(ff.len() == 1);
            assert(join(ff, sep) == ff[0]);
            assert(join(front, sep) == join(ff, sep) + sep + front.last());
            assert(ff[0] == list[0] && front.last() == list[1]);
        }
    }
}

/// The summary's subtitle is the upper-cased medium, then `"  |  "` and the
/// genre when one was given, then `"  |  "` and the length when one was
/// given: each part shows exactly when its own field is not empty.
pub proof fn lemma_summary_subtitle(r: Summary, p: ProjectView)
    requires
        is_summary_of(r, p),
    ensures
        r.subtitle@ == uppercase(p.medium) + (if p.metadata.genre.len() > 0 {
            "  |  "@ + p.metadata.genre
        } else {
            seq![]
        }) + (if p.metadata.estimated_length.len() > 0 {
            "  |  "@ + p.metadata.estimated_length
        } else {
            seq![]
        }),
{
    let parts = subtitle_parts(p);
    let sep = "  |  "@;
    let m = uppercase(p.medium);
    let g = p.metadata.genre;
    let l = p.metadata.estimated_length;
    lemma_join_small(parts, sep);
    if g.len() > 0 && l.len() > 0 {
        assert(parts =~= seq![m, g, l]);
        assert(m + sep + g + sep + l =~= m + (sep + g) + (sep + l));
    } else if g.len() > 0 {
        assert(parts =~= seq![m, g]);
        assert(m + sep + g =~= m + (sep + g) + Seq::<char>::empty());
    } else if l.len() > 0 {
        assert(parts =~= seq![m, l]);
        assert(m + sep + l =~= m + Seq::<char>::empty() + (sep + l));
    } else {
        assert(parts =~= seq![m]);
        assert(m =~= m + Seq::<char>::empty() + Seq::<char>::empty());
    }
}

/// The rest of the summary: the structure's name, the upper-cased title, the
/// logline wrapped at 75 bytes, and for each beat in order its number from 1
/// with the upper-cased name (leading number dropped), its target in round
/// brackets, and its whole content (or `(Empty)`) wrapped at 82 bytes.
pub proof fn lemma_summary_fields(r: Summary, p: ProjectView)
    requires
        is_summary_of(r, p),
    ensures
        r.structure_name@ == p.structure_name,
        r.title@ == uppercase(p.metadata.title),
        strs(r.logline@) == wrapped(p.metadata.logline, 75),
        r.beats@.len() == p.steps.len(),
        forall|i: int| 0 <= i < p.steps.len() ==> {
            &&& (#[trigger] r.beats@[i]).title@ == decimal((i + 1) as nat) + ". "@ + uppercase(without_number(p.steps[i].name))
            &&& r.beats@[i].target@ == "("@ + p.steps[i].target + ")"@
            &&& strs(r.beats@[i].lines@) == wrapped(
                if p.steps[i].content.len() == 0 { "(Empty)"@ } else { p.steps[i].content },
                82,
            )
        },
{
    assert forall|i: int| 0 <= i < p.steps.len() implies {
        &&& (#[trigger] r.beats@[i]).title@ == decimal((i + 1) as nat) + ". "@ + uppercase(without_number(p.steps[i].name))
        &&& r.beats@[i].target@ == "("@ + p.steps[i].target + ")"@
        &&& strs(r.beats@[i].lines@) == wrapped(
            if p.steps[i].content.len() == 0 { "(Empty)"@ } else { p.steps[i].content },
            82,
        )
    } by {
        assert(r.beats@[i]@ == summary_beat(i, p.steps[i]));
    }
}

/// A beat's name loses its leading number exactly when it begins with an
/// ASCII digit and holds `". "`: it is then the part after the first `". "`,
/// and otherwise the name itself.
pub proof fn lemma_without_number(name: Seq<char>)
    ensures
        ({
            let r = without_number(name);
            if name.len() > 0 && '0' <= name[0] <= '9' && exists|i: int|
                0 <= i < name.len() - 1 && #[trigger] name[i] == '.' && name[i + 1] == ' ' {
                exists|i: int|
                    0 <= i < name.len() - 1 && name[i] == '.' && name[i + 1] == ' ' && name =~= name.take(i)
                        + ". "@ + r && forall|k: int| 0 <= k < i ==> !(#[trigger] name[k] == '.' && name[k + 1] == ' ')
            } else {
                r == name
            }
        }),
{
    if name.len() > 0 && '0' <= name[0] <= '9' && exists|i: int|
        0 <= i < name.len() - 1 && #[trigger] name[i] == '.' && name[i + 1] == ' ' {
        let w = choose|i: int| 0 <= i < name.len() - 1 && #[trigger] name[i] == '.' && name[i + 1] == ' ';
        lemma_first_separator(name, w);
        let i = choose|i: int|
            0 <= i < name.len() - 1 && #[trigger] name[i] == '.' && name[i + 1] == ' ' && forall|k: int|
                0 <= k < i ==> !(#[trigger] name[k] == '.' && name[k + 1] == ' ');
        reveal_strlit(". ");
        assert(name =~= name.take(i) + ". "@ + name.skip(i + 2));
    }
}

/// Where `". "` occurs, it has a first occurrence.
proof fn lemma_first_separator(name: Seq<char>, w: int)
    requires
        0 <= w < name.len() - 1,
        name[w] == '.' && name[w + 1] == ' ',
    ensures
        exists|i: int|
            0 <= i < name.len() - 1 && #[trigger] name[i] == '.' && name[i + 1] == ' ' && forall|k: int|
                0 <= k < i ==> !(#[trigger] name[k] == '.' && name[k + 1] == ' '),
    decreases w,
{
    if exists|k: int| 0 <= k < w && #[trigger] name[k] == '.' && name[k + 1] == ' ' {
        let k = choose|k: int| 0 <= k < w && #[trigger] name[k] == '.' && name[k + 1] == ' ';
        lemma_first_separator(name, k);
    } else {
        assert(forall|k: int| 0 <= k < w ==> !(#[trigger] name[k] == '.' && name[k + 1] == ' '));
    }
}

} // verus!
