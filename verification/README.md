# structure_your_story

A terminal tool for planning a story on a structure template (three-act,
hero's journey, ...): pick a structure, write the text of each beat in a
full-screen editor, and export the project to Markdown, plain text, JSON or a
PDF summary.

- `src/` is the verified library: the data model (`models`), the registry of
  structures (`registry`), starting a project (`wizard`), the editor's key
  handling (`editor`), the text of the Markdown, plain-text and PDF
  exports with its word wrapping (`exporters`) and the string building blocks they share (`text`).
- `app/` is the program around it: prompts, the terminal UI, reading and
  writing files, the JSON form of projects and structures, and the PDF page
  layout.
- `tests/` runs the library on concrete projects.
