//! Picking a file or a directory in a dialog of the system.
//!
//! The dialog is shown by a program of the system: `osascript` on a Mac,
//! PowerShell on Windows. Here it is settled what to run and what its outcome
//! means; elsewhere there is no dialog, and paths are typed in.

use crate::text::{chars_of, find_part, opt_view, part_from, string_of, trim, trimmed};
use vstd::prelude::*;
use vstd::string::*;

verus! {

#[derive(Debug, Clone, Copy, PartialEq, Eq, Structural)]
pub enum Platform {
    Mac,
    Windows,
    Other,
}

#[derive(Debug, Clone, Copy, PartialEq, Eq, Structural)]
pub enum PickKind {
    /// A file that is there.
    OpenFile,
    /// A directory.
    OpenDirectory,
    /// A place for a file, which need not be there.
    SaveFile,
}

impl Default for PickKind {
    fn default() -> (out: Self)
        ensures
            out == PickKind::OpenFile,
    {
        PickKind::OpenFile
    }
}

#[derive(Debug)]
pub struct PickRequest {
    pub kind: PickKind,
    /// The name to start from, where a file is to be saved.
    pub default_name: Option<String>,
    /// The title of the dialog.
    pub title: Option<String>,
}

#[derive(Debug)]
pub struct PickResponse {
    /// Nothing where the dialog was cancelled.
    pub path: Option<String>,
}

/// There is a dialog on this platform.
pub fn is_supported(platform: Platform) -> (out: bool)
    ensures
        out == (platform == Platform::Mac || platform == Platform::Windows),
{
    platform == Platform::Mac || platform == Platform::Windows
}

/// A text for a quoted literal: `mark` stands before each mark and each quote.
pub open spec fn escaped(s: Seq<char>, mark: char) -> Seq<char>
    decreases s.len(),
{
    if s.len() == 0 {
        Seq::empty()
    } else if s.last() == mark || s.last() == '"' {
        escaped(s.drop_last(), mark) + seq![mark, s.last()]
    } else {
        escaped(s.drop_last(), mark) + seq![s.last()]
    }
}

/// What a quoted literal says: a mark stands for the character behind it.
pub open spec fn unescaped(s: Seq<char>, mark: char) -> Seq<char>
    decreases s.len(),
{
    if s.len() == 0 {
        Seq::empty()
    } else if s[0] == mark && s.len() >= 2 {
        seq![s[1]] + unescaped(s.skip(2), mark)
    } else {
        seq![s[0]] + unescaped(s.skip(1), mark)
    }
}

fn escape(s: &str, mark: char) -> (out: Vec<char>)
    ensures
        out@ == escaped(s@, mark),
{
    let l: Vec<char> = chars_of(s);
    let mut out: Vec<char> = Vec::new();
    let mut i: usize = 0;
    assert(out@ =~= escaped(l@.take(0), mark));
    while i < l.len()
        invariant
            i <= l@.len(),
            out@ == escaped(l@.take(i as int), mark),
        decreases l.len() - i,
    {
        let ghost had = out@;
        assert(l@.take(i + 1).drop_last() =~= l@.take(i as int));
        let c: char = l[i];
        if c == mark || c == '"' {
            out.push(mark);
            out.push(c);
            assert(out@ =~= had + seq![mark, c]);
        } else {
            out.push(c);
            assert(out@ =~= had + seq![c]);
        }
        i = i + 1;
    }
    assert(l@.take(l@.len() as int) =~= l@);
    out
}

/// A text that is escaped reads back as the text.
pub proof fn law_an_escaped_text_reads_back(s: Seq<char>, mark: char)
    ensures
        unescaped(escaped(s, mark), mark) == s,
{
    lemma_reads_back(s, mark, Seq::empty());
    assert(escaped(s, mark) + Seq::<char>::empty() =~= escaped(s, mark));
    assert(s + unescaped(Seq::<char>::empty(), mark) =~= s);
}

proof fn lemma_reads_back(s: Seq<char>, mark: char, rest: Seq<char>)
    ensures
        unescaped(escaped(s, mark) + rest, mark) == s + unescaped(rest, mark),
    decreases s.len(),
{
    if s.len() == 0 {
        assert(escaped(s, mark) + rest =~= rest);
        assert(s + unescaped(rest, mark) =~= unescaped(rest, mark));
    } else {
        let c = s.last();
        let front = escaped(s.drop_last(), mark);
        if c == mark || c == '"' {
            let tail = seq![mark, c] + rest;
            assert(escaped(s, mark) + rest =~= front + tail);
            lemma_reads_back(s.drop_last(), mark, tail);
            assert(tail.skip(2) =~= rest);
            assert(unescaped(tail, mark) == seq![c] + unescaped(rest, mark));
        } else {
            let tail = seq![c] + rest;
            assert(escaped(s, mark) + rest =~= front + tail);
            lemma_reads_back(s.drop_last(), mark, tail);
            assert(tail.skip(1) =~= rest);
            assert(unescaped(tail, mark) == seq![c] + unescaped(rest, mark));
        }
        assert(s.drop_last() + (seq![c] + unescaped(rest, mark)) =~= s + unescaped(rest, mark));
    }
}

/// Every quote in an escaped text has a mark right before it.
pub proof fn law_no_quote_stands_bare(s: Seq<char>, mark: char, i: int)
    requires
        mark != '"',
        0 <= i < escaped(s, mark).len(),
        escaped(s, mark)[i] == '"',
    ensures
        0 < i,
        escaped(s, mark)[i - 1] == mark,
    decreases s.len(),
{
    if s.len() > 0 {
        let front = escaped(s.drop_last(), mark);
        if i < front.len() {
            law_no_quote_stands_bare(s.drop_last(), mark, i);
        }
    }
}

/// A program and its arguments.
pub struct PickCommand {
    pub program: &'static str,
    pub args: Vec<String>,
}

/// The AppleScript for a request.
pub open spec fn apple_script(kind: PickKind, title: Seq<char>, name: Seq<char>) -> Seq<char> {
    match kind {
        PickKind::OpenFile => "POSIX path of (choose file with prompt \""@ + title + "\")"@,
        PickKind::OpenDirectory => "POSIX path of (choose folder with prompt \""@ + title + "\")"@,
        PickKind::SaveFile => if name.len() == 0 {
            "POSIX path of (choose file name with prompt \""@ + title + "\")"@
        } else {
            "POSIX path of (choose file name with prompt \""@ + title + ("\" default name \""@
                + name + "\")"@)
        },
    }
}

/// The PowerShell for a request.
pub open spec fn power_shell(kind: PickKind, title: Seq<char>, name: Seq<char>) -> Seq<char> {
    match kind {
        PickKind::OpenFile => "Add-Type -AssemblyName System.Windows.Forms | Out-Null\n$f = New-Object System.Windows.Forms.OpenFileDialog\n$f.Title = \""@
            + title
            + "\"\nif ($f.ShowDialog() -eq [System.Windows.Forms.DialogResult]::OK) { Write-Output $f.FileName }"@,
        PickKind::OpenDirectory => "Add-Type -AssemblyName System.Windows.Forms | Out-Null\n$f = New-Object System.Windows.Forms.FolderBrowserDialog\n$f.Description = \""@
            + title
            + "\"\nif ($f.ShowDialog() -eq [System.Windows.Forms.DialogResult]::OK) { Write-Output $f.SelectedPath }"@,
        PickKind::SaveFile => "Add-Type -AssemblyName System.Windows.Forms | Out-Null\n$f = New-Object System.Windows.Forms.SaveFileDialog\n$f.Title = \""@
            + title + ("\"\n$f.FileName = \""@ + name
            + "\"\nif ($f.ShowDialog() -eq [System.Windows.Forms.DialogResult]::OK) { Write-Output $f.FileName }"@),
    }
}

/// A text that was given, escaped, or another where none was.
pub open spec fn given_or(s: Option<Seq<char>>, other: Seq<char>, mark: char) -> Seq<char> {
    match s {
        Some(t) => escaped(t, mark),
        None => other,
    }
}

fn given(s: &Option<String>, other: &str, mark: char) -> (out: String)
    ensures
        out@ == given_or(opt_view(*s), other@, mark),
{
    match s {
        Some(t) => string_of(&escape(t.as_str(), mark)),
        None => other.to_owned(),
    }
}

fn three(a: &str, b: &str, c: &str) -> (out: String)
    ensures
        out@ == a@ + b@ + c@,
{
    crate::text::join3(a, b, c)
}

fn apple_text(kind: PickKind, title: &str, name: &str) -> (out: String)
    ensures
        out@ == apple_script(kind, title@, name@),
{
    match kind {
        PickKind::OpenFile => three("POSIX path of (choose file with prompt \"", title, "\")"),
        PickKind::OpenDirectory => three(
            "POSIX path of (choose folder with prompt \"",
            title,
            "\")",
        ),
        PickKind::SaveFile => if name.is_empty() {
            three("POSIX path of (choose file name with prompt \"", title, "\")")
        } else {
            three(
                "POSIX path of (choose file name with prompt \"",
                title,
                three("\" default name \"", name, "\")").as_str(),
            )
        },
    }
}

fn power_text(kind: PickKind, title: &str, name: &str) -> (out: String)
    ensures
        out@ == power_shell(kind, title@, name@),
{
    match kind {
        PickKind::OpenFile => three(
            "Add-Type -AssemblyName System.Windows.Forms | Out-Null\n$f = New-Object System.Windows.Forms.OpenFileDialog\n$f.Title = \"",
            title,
            "\"\nif ($f.ShowDialog() -eq [System.Windows.Forms.DialogResult]::OK) { Write-Output $f.FileName }",
        ),
        PickKind::OpenDirectory => three(
            "Add-Type -AssemblyName System.Windows.Forms | Out-Null\n$f = New-Object System.Windows.Forms.FolderBrowserDialog\n$f.Description = \"",
            title,
            "\"\nif ($f.ShowDialog() -eq [System.Windows.Forms.DialogResult]::OK) { Write-Output $f.SelectedPath }",
        ),
        PickKind::SaveFile => three(
            "Add-Type -AssemblyName System.Windows.Forms | Out-Null\n$f = New-Object System.Windows.Forms.SaveFileDialog\n$f.Title = \"",
            title,
            three(
                "\"\n$f.FileName = \"",
                name,
                "\"\nif ($f.ShowDialog() -eq [System.Windows.Forms.DialogResult]::OK) { Write-Output $f.FileName }",
            ).as_str(),
        ),
    }
}

/// What to run to show the dialog.
pub fn pick_command(req: &PickRequest, platform: Platform) -> (out: Result<PickCommand, String>)
    ensures
        match (platform, out) {
            (Platform::Mac, Ok(c)) => c.program@ == "osascript"@ && c.args@.len() == 2
                && c.args@[0]@ == "-e"@ && c.args@[1]@ == apple_script(
                req.kind,
                given_or(opt_view(req.title), "选择文件"@, '\\'),
                given_or(opt_view(req.default_name), Seq::empty(), '\\'),
            ),
            (Platform::Windows, Ok(c)) => c.program@ == "powershell"@ && c.args@.len() == 5
                && c.args@[0]@ == "-NoProfile"@ && c.args@[1]@ == "-NonInteractive"@ && c.args@[2]@
                == "-STA"@ && c.args@[3]@ == "-Command"@ && c.args@[4]@ == power_shell(
                req.kind,
                given_or(opt_view(req.title), "Choose a file"@, '`'),
                given_or(opt_view(req.default_name), Seq::empty(), '`'),
            ),
            (Platform::Other, Err(e)) => e@
                == "native file picker not supported on this platform; please paste the path manually"@,
            _ => false,
        },
{
    proof {
        reveal_strlit("");
        assert(""@ =~= Seq::<char>::empty());
    }
    match platform {
        Platform::Mac => {
            let title: String = given(&req.title, "选择文件", '\\');
            let name: String = given(&req.default_name, "", '\\');
            let script: String = apple_text(req.kind, title.as_str(), name.as_str());
            Ok(PickCommand { program: "osascript", args: vec!["-e".to_owned(), script] })
        },
        Platform::Windows => {
            let title: String = given(&req.title, "Choose a file", '`');
            let name: String = given(&req.default_name, "", '`');
            let script: String = power_text(req.kind, title.as_str(), name.as_str());
            Ok(
                PickCommand {
                    program: "powershell",
                    args: vec![
                        "-NoProfile".to_owned(),
                        "-NonInteractive".to_owned(),
                        "-STA".to_owned(),
                        "-Command".to_owned(),
                        script,
                    ],
                },
            )
        },
        Platform::Other => Err(
            "native file picker not supported on this platform; please paste the path manually".to_owned(),
        ),
    }
}

/// How the program ended.
#[derive(Debug)]
pub enum PickOutcome {
    /// It could not be started, and why.
    NotStarted(String),
    /// It ended with an error and these words.
    Failed(String),
    /// It wrote this.
    Done(String),
}

/// The program's name as it stands in messages.
pub open spec fn program_of(platform: Platform) -> Seq<char> {
    if platform == Platform::Windows {
        "powershell"@
    } else {
        "osascript"@
    }
}

/// The dialog was cancelled: the program failed without a word, or with the
/// number that stands for that on a Mac.
pub open spec fn cancelled(words: Seq<char>, platform: Platform) -> bool {
    trimmed(words).len() == 0 || (platform == Platform::Mac && part_from(
        words,
        seq!['-', '1', '2', '8'],
        0,
    ) is Some)
}

/// Reads the outcome of a dialog: the path that was picked, nothing where it was
/// cancelled, or what went wrong.
pub fn pick(platform: Platform, outcome: &PickOutcome) -> (out: Result<PickResponse, String>)
    requires
        platform != Platform::Other,
    ensures
        match *outcome {
            PickOutcome::NotStarted(e) => out is Err && (out->Err_0)@ == program_of(platform)
                + " spawn: "@ + e@,
            PickOutcome::Failed(words) => if cancelled(words@, platform) {
                out is Ok && (out->Ok_0).path is None
            } else {
                out is Err && (out->Err_0)@ == program_of(platform) + ": "@ + trimmed(words@)
            },
            PickOutcome::Done(text) => out is Ok && opt_view((out->Ok_0).path) == if trimmed(
                text@,
            ).len() == 0 {
                None
            } else {
                Some(trimmed(text@))
            },
        },
{
    let program: &str = if platform == Platform::Windows {
        "powershell"
    } else {
        "osascript"
    };
    match outcome {
        PickOutcome::NotStarted(e) => Err(three(program, " spawn: ", e.as_str())),
        PickOutcome::Failed(words) => {
            let said: String = trim(words.as_str());
            if said.as_str().is_empty() {
                return Ok(PickResponse { path: None });
            }
            let code: [char; 4] = ['-', '1', '2', '8'];
            assert(code@ =~= seq!['-', '1', '2', '8']);
            if platform == Platform::Mac && find_part(
                &chars_of(words.as_str()),
                &code,
                0,
            ).is_some() {
                return Ok(PickResponse { path: None });
            }
            Err(three(program, ": ", said.as_str()))
        },
        PickOutcome::Done(text) => {
            let path: String = trim(text.as_str());
            if path.as_str().is_empty() {
                Ok(PickResponse { path: None })
            } else {
                Ok(PickResponse { path: Some(path) })
            }
        },
    }
}

} // verus!
