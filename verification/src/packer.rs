//! Export assembly: the combined text document, built from the selected
//! files' contents in sorted order. Reading the files is the caller's
//! business; a file whose content could not be read contributes a single
//! inline error line instead of its block.
use crate::categories::file_name_of;
use vstd::prelude::*;

verus! {

/// The export's header: a line naming the tool and a line naming the
/// project, then a blank line.
pub open spec fn spec_header(project: Seq<char>) -> Seq<char> {
    "// PAKR COMBINED TEXT EXPORT //\n// Project: "@ + project + "\n\n"@
}

/// One readable file's block: start delimiter, the content as-is with a
/// newline appended when it lacks one, end delimiter, and a blank line.
pub open spec fn spec_ok_block(path: Seq<char>, content: Seq<char>) -> Seq<char> {
    "// ===== START: "@ + path + " =====\n"@ + content + (if content.len() > 0 && content.last()
        == '\n' {
        Seq::<char>::empty()
    } else {
        "\n"@
    }) + "// ===== END: "@ + path + " =====\n"@ + "\n"@
}

/// One unreadable file's line, followed by the blank separator.
pub open spec fn spec_err_line(path: Seq<char>, msg: Seq<char>) -> Seq<char> {
    "// ERROR: "@ + path + ": "@ + msg + "\n"@ + "\n"@
}

/// What one selected file contributes to the export.
pub open spec fn spec_entry_text(e: (String, Result<String, String>)) -> Seq<char> {
    match e.1 {
        Ok(content) => spec_ok_block(e.0@, content@),
        Err(msg) => spec_err_line(e.0@, msg@),
    }
}

/// The whole export: the header, then every file's block in input order.
pub open spec fn spec_export(
    project: Seq<char>,
    files: Seq<(String, Result<String, String>)>,
) -> Seq<char>
    decreases files.len(),
{
    if files.len() == 0 {
        spec_header(project)
    } else {
        spec_export(project, files.drop_last()) + spec_entry_text(files.last())
    }
}

/// The directory name an export is titled with: the root path's last
/// component, or a fixed fallback for a root without one.
pub open spec fn spec_project_name(root: Seq<char>) -> Seq<char> {
    if file_name_of(root).len() == 0 {
        "project"@
    } else {
        file_name_of(root)
    }
}

/// The project name shown in the export's header.
pub fn project_name(root: &str) -> (r: String)
    ensures
        r@ == spec_project_name(root@),
{
    let name = crate::categories::file_name(root);
    if name.as_str().unicode_len() == 0 {
        "project".to_owned()
    } else {
        name
    }
}

/// Appends one readable file's block.
pub fn append_file(out: &mut String, path: &str, content: &str)
    ensures
        final(out)@ == old(out)@ + spec_ok_block(path@, content@),
{
    out.append("// ===== START: ");
    out.append(path);
    out.append(" =====\n");
    out.append(content);
    let n = content.unicode_len();
    if !(n > 0 && content.get_char(n - 1) == '\n') {
        out.append("\n");
    }
    out.append("// ===== END: ");
    out.append(path);
    out.append(" =====\n");
    out.append("\n");
}

/// Builds the export text for the project and the selected files'
/// contents, in the order given.
pub fn build_export(project: &str, files: &Vec<(String, Result<String, String>)>) -> (r: String)
    ensures
        r@ == spec_export(project@, files@),
{
    let mut out = "// PAKR COMBINED TEXT EXPORT //\n// Project: ".to_owned();
    out.append(project);
    out.append("\n\n");
    let n = files.len();
    let mut i: usize = 0;
    proof {
        assert(files@.take(0) =~= Seq::<(String, Result<String, String>)>::empty());
        assert(out@ =~= spec_export(project@, files@.take(0)));
    }
    while i < n
        invariant
            i <= n,
            n == files@.len(),
            out@ == spec_export(project@, files@.take(i as int)),
        decreases n - i,
    {
        proof {
            assert(files@.take(i + 1).drop_last() =~= files@.take(i as int));
            assert(files@.take(i + 1).last() == files@[i as int]);
        }
        let e = &files[i];
        match &e.1 {
            Ok(content) => {
                append_file(&mut out, e.0.as_str(), content.as_str());
            },
            Err(msg) => {
                out.append("// ERROR: ");
                out.append(e.0.as_str());
                out.append(": ");
                out.append(msg.as_str());
                out.append("\n");
                out.append("\n");
            },
        }
        proof {
            assert(out@ =~= spec_export(project@, files@.take(i + 1)));
        }
        i = i + 1;
    }
    proof {
        assert(files@.take(n as int) =~= files@);
    }
    out
}

} // verus!
