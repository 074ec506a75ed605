use structure_your_story::editor::{handle_key, progress_label, EditorAction, Key};
use structure_your_story::exporters::{ExportFormat, Exporters};
use structure_your_story::models::{
    default_status, Project, ProjectMetadata, Reference, StoryStructure, StructureStep, Timestamp,
};
use structure_your_story::registry::{name_less, StructureRegistry};
use structure_your_story::text::{is_blank_str, lines_of, words_of};
use structure_your_story::wizard::{
    create_project, find_by_label, medium_from_choice, start_project, structure_label, touched,
    LabelStyle,
};

fn step(id: &str, name: &str, target: &str, prompt: &str, content: &str) -> StructureStep {
    StructureStep {
        id: id.to_string(),
        name: name.to_string(),
        target: target.to_string(),
        prompt: prompt.to_string(),
        content: content.to_string(),
        status: "draft".to_string(),
    }
}

fn structure(id: &str, name: &str, mediums: &[&str], steps: usize) -> StoryStructure {
    StoryStructure {
        id: id.to_string(),
        name: name.to_string(),
        mediums: mediums.iter().map(|m| m.to_string()).collect(),
        author: "Author".to_string(),
        structure_type: "Linear".to_string(),
        complexity: "Low".to_string(),
        description: "A structure.".to_string(),
        best_for: "Everything".to_string(),
        avoid_if: "Never".to_string(),
        references: vec![Reference { label: "Ref".to_string(), url: "http://x".to_string() }],
        steps: (0..steps)
            .map(|i| step(&format!("s{}", i), &format!("Beat {}", i), "10%", "Ask", "old"))
            .collect(),
    }
}

fn time() -> Timestamp {
    Timestamp { seconds: 1_700_000_000, nanos: 5, utc_offset: 3600 }
}

fn metadata(title: &str, genre: &str, logline: &str, length: &str) -> ProjectMetadata {
    ProjectMetadata {
        title: title.to_string(),
        genre: genre.to_string(),
        logline: logline.to_string(),
        estimated_length: length.to_string(),
        notes: String::new(),
    }
}

fn project() -> Project {
    Project {
        id: "abc".to_string(),
        app_name: "Structure Your Story".to_string(),
        app_version: "0.1.0".to_string(),
        medium: "novel".to_string(),
        structure_id: "three-act".to_string(),
        structure_name: "Three Act".to_string(),
        metadata: metadata("My Book", "Noir", "A detective.", "90k words"),
        steps: vec![
            step("a", "1. Opening Image", "1%", "Show the world", "It rained."),
            step("b", "Catalyst", "10%", "What happens", ""),
        ],
        created_at: time(),
        updated_at: time(),
    }
}

fn names(v: &[StoryStructure]) -> Vec<String> {
    v.iter().map(|s| s.name.clone()).collect()
}

#[test]
fn default_status_is_empty() {
    assert_eq!(default_status(), "empty");
}

#[test]
fn registry_lists_all_sorted_by_name() {
    assert!(StructureRegistry::new(vec![]).get_all().is_empty());
    let reg = StructureRegistry::new(vec![
        structure("hero", "Hero's Journey", &["novel", "screenplay"], 3),
        structure("save", "Save the Cat", &["screenplay"], 2),
        structure("acts", "Three Act", &["novel"], 1),
        structure("fichtean", "Fichtean Curve", &["novel"], 4),
    ]);
    assert_eq!(
        names(&reg.get_all()),
        vec!["Fichtean Curve", "Hero's Journey", "Save the Cat", "Three Act"]
    );
}

#[test]
fn registry_later_structure_with_same_id_replaces_earlier() {
    let reg = StructureRegistry::new(vec![
        structure("hero", "Old Hero", &["novel"], 1),
        structure("acts", "Three Act", &["novel"], 1),
        structure("hero", "Hero's Journey", &["screenplay"], 5),
    ]);
    let all = reg.get_all();
    assert_eq!(names(&all), vec!["Hero's Journey", "Three Act"]);
    assert_eq!(all[0].steps.len(), 5);
    assert_eq!(all[0].mediums, vec!["screenplay".to_string()]);
}

#[test]
fn registry_by_medium_filters_the_full_listing() {
    let reg = StructureRegistry::new(vec![
        structure("hero", "Hero's Journey", &["novel", "screenplay"], 3),
        structure("save", "Save the Cat", &["screenplay"], 2),
        structure("acts", "Three Act", &["novel"], 1),
    ]);
    let all = reg.get_all();
    for m in ["screenplay", "novel", "poem"] {
        let filtered: Vec<String> = all
            .iter()
            .filter(|s| s.mediums.iter().any(|x| x == m))
            .map(|s| s.name.clone())
            .collect();
        assert_eq!(names(&reg.get_by_medium(m)), filtered);
    }
    assert_eq!(names(&reg.get_by_medium("screenplay")), vec!["Hero's Journey", "Save the Cat"]);
    assert_eq!(names(&reg.get_by_medium("novel")), vec!["Hero's Journey", "Three Act"]);
    assert!(reg.get_by_medium("Novel").is_empty());
    assert!(reg.get_by_medium("poem").is_empty());
}

#[test]
fn names_order_by_code_point() {
    assert!(name_less("Apple", "apple"));
    assert!(name_less("Save", "Save the Cat"));
    assert!(!name_less("b", "a"));
    assert!(!name_less("same", "same"));
    assert!(name_less("Zebra", "Ärger"));
}

#[test]
fn lines_follow_str_lines() {
    let text = "one\r\ntwo\n\nthree\n";
    let got: Vec<String> = lines_of(text);
    let want: Vec<String> = text.lines().map(|l| l.to_string()).collect();
    assert_eq!(got, want);
    assert!(lines_of("").is_empty());
}

#[test]
fn words_follow_split_whitespace() {
    let text = "  alpha\tbeta \u{2003}gamma\n delta  ";
    let got = words_of(text);
    let want: Vec<String> = text.split_whitespace().map(|w| w.to_string()).collect();
    assert_eq!(got, want);
}

#[test]
fn blank_strings() {
    assert!(is_blank_str(""));
    assert!(is_blank_str(" \t\n"));
    assert!(!is_blank_str(" a "));
}

#[test]
fn wrap_text_fills_lines_greedily() {
    let lines = Exporters::wrap_text("the quick brown fox jumps", 10);
    assert_eq!(lines, vec!["the quick", "brown fox", "jumps"]);
    for line in &lines {
        if line.contains(' ') {
            assert!(line.len() <= 10);
        }
    }
}

#[test]
fn wrap_text_keeps_empty_paragraphs_and_overlong_words() {
    let lines = Exporters::wrap_text("a\n\nsupercalifragilistic b", 8);
    assert_eq!(lines, vec!["a", "", "", "supercalifragilistic", "b"]);
}

#[test]
fn wrap_text_counts_bytes() {
    // "é" takes two bytes, so "éé éé" takes nine and does not fit in eight.
    let lines = Exporters::wrap_text("éé éé", 8);
    assert_eq!(lines, vec!["éé", "éé"]);
    let lines = Exporters::wrap_text("éé éé", 9);
    assert_eq!(lines, vec!["éé éé"]);
}

#[test]
fn file_names_per_format() {
    let p = project();
    assert_eq!(Exporters::file_name(&p, ExportFormat::Markdown), "abc.md");
    assert_eq!(Exporters::file_name(&p, ExportFormat::PlainText), "abc.txt");
    assert_eq!(Exporters::file_name(&p, ExportFormat::Json), "abc_export.json");
    assert_eq!(Exporters::file_name(&p, ExportFormat::PdfSummary), "abc_summary.pdf");
}

#[test]
fn export_menu_choices() {
    assert_eq!(ExportFormat::from_choice("PDF Summary"), Some(ExportFormat::PdfSummary));
    assert_eq!(ExportFormat::from_choice("Markdown"), Some(ExportFormat::Markdown));
    assert_eq!(ExportFormat::from_choice("JSON"), Some(ExportFormat::Json));
    assert_eq!(ExportFormat::from_choice("Plain Text"), Some(ExportFormat::PlainText));
    assert_eq!(ExportFormat::from_choice("Cancel"), None);
}

#[test]
fn markdown_document_text() {
    let doc = Exporters::markdown_document(&project());
    let want = "# My Book\n\n**App:** Structure Your Story\n**Medium:** novel\n**Structure:** Three Act\n**Genre:** Noir\n**Estimated Length:** 90k words\n\n## Logline / Premise\nA detective.\n\n## Story Beats\n\n### 1. 1. Opening Image (1%)\n*Prompt: Show the world*\n\nIt rained.\n\n### 2. Catalyst (10%)\n*Prompt: What happens*\n\n*(No content)*\n";
    assert_eq!(doc, want);
}

#[test]
fn markdown_defaults_for_missing_title_and_logline() {
    let mut p = project();
    p.metadata = metadata("", "", "", "");
    p.steps.clear();
    let lines = Exporters::markdown_lines(&p);
    assert_eq!(lines[0], "# Untitled Project");
    assert_eq!(lines[9], "N/A");
    assert_eq!(lines.len(), 13);
}

#[test]
fn text_document_text() {
    let doc = Exporters::text_document(&project());
    let eq = "=".repeat(50);
    let dash = "-".repeat(50);
    let short = "-".repeat(20);
    let want = format!(
        "STRUCTURE YOUR STORY: MY BOOK\n{}\nMedium: novel\nStructure: Three Act\nGenre: Noir\nLength: 90k words\n\nLOGLINE:\nA detective.\n\nSTORY BEATS:\n{}\n\n1. 1. OPENING IMAGE (1%)\nPrompt: Show the world\n{}\nIt rained.\n\n2. CATALYST (10%)\nPrompt: What happens\n{}\n(No content)\n",
        eq, dash, short, short
    );
    assert_eq!(doc, want);
}

#[test]
fn summary_text() {
    let s = Exporters::summary(&project());
    assert_eq!(s.structure_name, "Three Act");
    assert_eq!(s.title, "MY BOOK");
    assert_eq!(s.subtitle, "NOVEL  |  Noir  |  90k words");
    assert_eq!(s.logline, vec!["A detective."]);
    assert_eq!(s.beats.len(), 2);
    assert_eq!(s.beats[0].title, "1. OPENING IMAGE");
    assert_eq!(s.beats[0].target, "(1%)");
    assert_eq!(s.beats[0].lines, vec!["It rained."]);
    assert_eq!(s.beats[1].title, "2. CATALYST");
    assert_eq!(s.beats[1].lines, vec!["(Empty)"]);
}

#[test]
fn summary_subtitle_skips_missing_parts_and_keeps_unnumbered_names() {
    let mut p = project();
    p.metadata = metadata("x", "", "", "");
    p.steps = vec![step("a", "A. Setup", "5%", "p", "c"), step("b", "2 no dot", "5%", "p", "c")];
    let s = Exporters::summary(&p);
    assert_eq!(s.subtitle, "NOVEL");
    assert!(s.logline.is_empty());
    assert_eq!(s.beats[0].title, "1. A. SETUP");
    assert_eq!(s.beats[1].title, "2. 2 NO DOT");
}

#[test]
fn structure_labels_and_lookup() {
    let list = vec![
        structure("hero", "Hero's Journey", &["novel", "screenplay"], 12),
        structure("save", "Save the Cat", &["screenplay"], 15),
    ];
    assert_eq!(structure_label(&list[0], LabelStyle::StepCount), "Hero's Journey (12 steps)");
    assert_eq!(structure_label(&list[1], LabelStyle::FirstMedium), "Save the Cat (screenplay)");
    assert_eq!(find_by_label(&list, LabelStyle::StepCount, "Save the Cat (15 steps)"), Some(1));
    assert_eq!(find_by_label(&list, LabelStyle::FirstMedium, "Hero's Journey (novel)"), Some(0));
    assert_eq!(find_by_label(&list, LabelStyle::StepCount, "Back"), None);
}

#[test]
fn medium_choice() {
    assert_eq!(medium_from_choice("Screenplay"), Some("screenplay".to_string()));
    assert_eq!(medium_from_choice("Novel"), Some("novel".to_string()));
    assert_eq!(medium_from_choice("Back"), None);
}

#[test]
fn new_project_starts_with_blank_beats() {
    let s = structure("hero", "Hero's Journey", &["novel"], 3);
    let p = start_project(&s, "novel".to_string(), metadata("T", "", "", ""), "id1".to_string(), time(), time());
    assert_eq!(p.id, "id1");
    assert_eq!(p.app_name, "Structure Your Story");
    assert_eq!(p.app_version, "0.1.0");
    assert_eq!(p.structure_id, "hero");
    assert_eq!(p.structure_name, "Hero's Journey");
    assert_eq!(p.steps.len(), 3);
    for (i, st) in p.steps.iter().enumerate() {
        assert_eq!(st.content, "");
        assert_eq!(st.status, "empty");
        assert_eq!(st.name, format!("Beat {}", i));
    }
}

#[test]
fn editor_typing_and_backspace() {
    let mut p = project();
    let mut cur = 1usize;
    assert_eq!(handle_key(&mut p, &mut cur, Key::Char { c: 'h', ctrl: false }), EditorAction::Continue);
    assert_eq!(handle_key(&mut p, &mut cur, Key::Char { c: 'é', ctrl: false }), EditorAction::Continue);
    assert_eq!(p.steps[1].content, "hé");
    assert_eq!(p.steps[1].status, "done");
    assert_eq!(handle_key(&mut p, &mut cur, Key::Enter), EditorAction::Continue);
    assert_eq!(p.steps[1].content, "hé\n");
    handle_key(&mut p, &mut cur, Key::Backspace);
    handle_key(&mut p, &mut cur, Key::Backspace);
    assert_eq!(p.steps[1].content, "h");
    handle_key(&mut p, &mut cur, Key::Backspace);
    handle_key(&mut p, &mut cur, Key::Backspace);
    assert_eq!(p.steps[1].content, "");
    assert_eq!(p.steps[0].content, "It rained.");
    assert_eq!(p.steps[0].status, "draft");
}

#[test]
fn editor_moves_between_beats_within_bounds() {
    let mut p = project();
    let mut cur = 0usize;
    assert_eq!(handle_key(&mut p, &mut cur, Key::Tab { shift: true }), EditorAction::Save);
    assert_eq!(cur, 0);
    handle_key(&mut p, &mut cur, Key::Tab { shift: false });
    assert_eq!(cur, 1);
    handle_key(&mut p, &mut cur, Key::Tab { shift: false });
    assert_eq!(cur, 1);
    handle_key(&mut p, &mut cur, Key::Tab { shift: true });
    assert_eq!(cur, 0);
}

#[test]
fn editor_quit_export_and_other_keys() {
    let mut p = project();
    let mut cur = 0usize;
    assert_eq!(handle_key(&mut p, &mut cur, Key::Esc), EditorAction::SaveAndQuit);
    assert_eq!(handle_key(&mut p, &mut cur, Key::Char { c: 'x', ctrl: true }), EditorAction::SaveAndExport);
    assert_eq!(handle_key(&mut p, &mut cur, Key::Other), EditorAction::Continue);
    assert_eq!(p.steps[0].content, "It rained.");
    assert_eq!(p.steps[0].status, "draft");
    handle_key(&mut p, &mut cur, Key::Char { c: 'q', ctrl: true });
    assert_eq!(p.steps[0].content, "It rained.q");
}

#[test]
fn progress_label_counts_from_one() {
    assert_eq!(progress_label(0, 15), "1/15");
    assert_eq!(progress_label(9, 10), "10/10");
}

#[test]
fn project_clone_keeps_fields() {
    let p = project();
    let q = p.clone();
    assert_eq!(q.id, p.id);
    assert_eq!(q.steps.len(), p.steps.len());
    assert_eq!(q.steps[0].content, p.steps[0].content);
    assert_eq!(q.created_at, p.created_at);
}

#[test]
fn wrap_text_keeps_every_word_in_order() {
    let text = "Once upon a time,\n\n  in a   land far away, a\tdragon slept.\r\nThe end";
    for width in [1usize, 5, 12, 40] {
        let lines = Exporters::wrap_text(text, width);
        let got: Vec<String> = lines
            .iter()
            .flat_map(|l| l.split_whitespace().map(|w| w.to_string()).collect::<Vec<_>>())
            .collect();
        let want: Vec<String> = text.split_whitespace().map(|w| w.to_string()).collect();
        assert_eq!(got, want);
        for line in &lines {
            if line.contains(' ') {
                assert!(line.len() <= width);
            }
        }
    }
}

#[test]
fn load_keeps_last_structure_per_id_and_others_untouched() {
    let mut reg = StructureRegistry::new(vec![structure("a", "Alpha", &["novel"], 1)]);
    reg.load_all(vec![
        structure("b", "Beta", &["novel"], 1),
        structure("b", "Bravo", &["novel"], 2),
    ]);
    assert_eq!(names(&reg.get_all()), vec!["Alpha", "Bravo"]);
}

#[test]
fn created_project_has_random_v4_id_and_clock_times() {
    let s = structure("hero", "Hero's Journey", &["novel"], 2);
    let p = create_project(&s, "novel".to_string(), metadata("T", "", "", ""));
    let q = create_project(&s, "novel".to_string(), metadata("T", "", "", ""));
    assert_ne!(p.id, q.id);
    let id: Vec<char> = p.id.chars().collect();
    assert_eq!(id.len(), 32);
    assert!(id.iter().all(|c| c.is_ascii_digit() || ('a'..='f').contains(c)));
    assert_eq!(id[12], '4');
    assert!(['8', '9', 'a', 'b'].contains(&id[16]));
    assert!(p.created_at.nanos < 2_000_000_000);
    assert!(p.created_at.utc_offset.abs() < 86_400);
    assert!(p.created_at.seconds > 1_600_000_000);
    assert_eq!(p.steps.len(), 2);
    assert!(p.steps.iter().all(|st| st.content.is_empty() && st.status == "empty"));
}

#[test]
fn touched_project_keeps_everything_but_the_update_time() {
    let p = project();
    let t = touched(&p);
    assert_eq!(t.id, p.id);
    assert_eq!(t.created_at, p.created_at);
    assert_eq!(t.steps[0].content, p.steps[0].content);
    assert!(t.updated_at.seconds > p.updated_at.seconds);
}

#[test]
fn case_mapping_of_ascii_and_beyond() {
    let mut p = project();
    p.metadata.title = "My tale".to_string();
    assert_eq!(Exporters::summary(&p).title, "MY TALE");
    p.metadata.title = "straße".to_string();
    assert_eq!(Exporters::summary(&p).title, "STRASSE");
}
