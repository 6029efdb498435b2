//! The interactive prompt: what each input line asks for.
use vstd::prelude::*;
use crate::text::{chars_find, chars_of, chars_range, find_char, is_digit, lemma_find_char, parse_usize, parse_usize_spec, str_eq};

verus! {

/// The kinds of request an input line can make.
#[derive(PartialEq, Eq, Structural, Clone, Copy, Debug)]
pub enum CmdKind {
    /// `dir-diff`: compare the two sides of a pair.
    DirDiff,
    /// `try-d`: sign in to the cloud drive with the stored token.
    TryD,
    /// `try-m`: sign in to the other cloud service with the stored token.
    TryM,
    /// `ss-d`: list the cloud drive's files.
    SsD,
    /// `ss-m`: list the other cloud service's files (not done yet).
    SsM,
    /// `sc` or `scan`: scan every entfo of the default hardware.
    Scan,
    /// `mount-hardware` (not done yet).
    MountHardware,
    /// `l`: show the filtered records.
    List,
    /// `entfos`: show the entfo settings.
    Entfos,
    /// `write`: write the info files.
    Write,
    /// `reset`: clear the filter.
    Reset,
    /// `all`: select every filtered record.
    SelectAll,
    /// `deselect`: deselect every filtered record.
    Deselect,
    /// `fsdel`: delete the selected files' copies from disk.
    Fsdel,
    /// `del`: drop the selected files from the catalogue.
    Del,
    /// `exit` or `quit`.
    Exit,
    /// `lbl`: show the chosen label.
    ShowLbl,
    /// `lbls`: show every label.
    Lbls,
    /// `+`: add the chosen label to the selection.
    AddChosen,
    /// `-`: remove the chosen label from the selection.
    RemoveChosen,
    /// An empty line.
    Empty,
    /// `+pattern`: add the one label matching the pattern.
    Plus,
    /// `-pattern`: remove the one label matching the pattern.
    Minus,
    /// `/pattern`: filter by name.
    Slash,
    /// A number: toggle the selection of that filtered record.
    Toggle,
    /// Digits too large for an index.
    InvalidIndex,
    /// `scan-entfo ID`.
    ScanEntfo,
    /// `where CONDITION`.
    Where,
    /// `lbl LABEL`: choose a label.
    LblInput,
    /// `lbls PATTERN`: choose among matching labels.
    LblsSearch,
    /// `desc TEXT`.
    SetDesc,
    /// `oldfilename TEXT`.
    SetOldFilename,
    /// `downloadurl TEXT`.
    SetDownloadUrl,
    /// `archivefilename TEXT`.
    SetArchiveFilename,
    /// `copyright TEXT`.
    SetCopyright,
    /// `fsdel PATTERN`: delete matching copies of the selection.
    FsdelPattern,
    /// Anything else.
    Unrecognized,
}

/// A parsed input line: its kind, the text that follows the command (for
/// kinds that take one) and the index (for `Toggle`).
pub struct Command {
    pub kind: CmdKind,
    pub arg: String,
    pub index: usize,
}

/// The commands that are a whole line.
pub open spec fn exact_command(s: Seq<char>) -> Option<CmdKind> {
    if s == "dir-diff"@ {
        Some(CmdKind::DirDiff)
    } else if s == "try-d"@ {
        Some(CmdKind::TryD)
    } else if s == "try-m"@ {
        Some(CmdKind::TryM)
    } else if s == "ss-d"@ {
        Some(CmdKind::SsD)
    } else if s == "ss-m"@ {
        Some(CmdKind::SsM)
    } else if s == "sc"@ || s == "scan"@ {
        Some(CmdKind::Scan)
    } else if s == "mount-hardware"@ {
        Some(CmdKind::MountHardware)
    } else if s == "l"@ {
        Some(CmdKind::List)
    } else if s == "entfos"@ {
        Some(CmdKind::Entfos)
    } else if s == "write"@ {
        Some(CmdKind::Write)
    } else if s == "reset"@ {
        Some(CmdKind::Reset)
    } else if s == "all"@ {
        Some(CmdKind::SelectAll)
    } else if s == "deselect"@ {
        Some(CmdKind::Deselect)
    } else if s == "fsdel"@ {
        Some(CmdKind::Fsdel)
    } else if s == "del"@ {
        Some(CmdKind::Del)
    } else if s == "exit"@ || s == "quit"@ {
        Some(CmdKind::Exit)
    } else if s == "lbl"@ {
        Some(CmdKind::ShowLbl)
    } else if s == "lbls"@ {
        Some(CmdKind::Lbls)
    } else if s == "+"@ {
        Some(CmdKind::AddChosen)
    } else if s == "-"@ {
        Some(CmdKind::RemoveChosen)
    } else if s.len() == 0 {
        Some(CmdKind::Empty)
    } else {
        None
    }
}

/// Whole-line commands are told apart: two lines that ask for the same
/// whole-line command are the same line, but for the two spellings of
/// `scan` (`sc`, `scan`) and of `exit` (`exit`, `quit`).
pub proof fn lemma_whole_line_commands_distinct(a: Seq<char>, b: Seq<char>)
    requires
        exact_command(a) is Some,
        exact_command(a) == exact_command(b),
    ensures
        a == b || exact_command(a) == Some(CmdKind::Scan) || exact_command(a) == Some(CmdKind::Exit),
{
    if a.len() == 0 || b.len() == 0 {
        if exact_command(a) == Some(CmdKind::Empty) {
            assert(a =~= b);
        }
    }
}

/// The commands written as a word, a space and an argument.
pub open spec fn word_command(w: Seq<char>) -> Option<CmdKind> {
    if w == "scan-entfo"@ {
        Some(CmdKind::ScanEntfo)
    } else if w == "where"@ {
        Some(CmdKind::Where)
    } else if w == "lbl"@ {
        Some(CmdKind::LblInput)
    } else if w == "lbls"@ {
        Some(CmdKind::LblsSearch)
    } else if w == "desc"@ {
        Some(CmdKind::SetDesc)
    } else if w == "oldfilename"@ {
        Some(CmdKind::SetOldFilename)
    } else if w == "downloadurl"@ {
        Some(CmdKind::SetDownloadUrl)
    } else if w == "archivefilename"@ {
        Some(CmdKind::SetArchiveFilename)
    } else if w == "copyright"@ {
        Some(CmdKind::SetCopyright)
    } else if w == "fsdel"@ {
        Some(CmdKind::FsdelPattern)
    } else {
        None
    }
}

/// Every character is an ASCII decimal digit.
pub open spec fn all_digits(s: Seq<char>) -> bool {
    forall|i: int| 0 <= i < s.len() ==> is_digit(#[trigger] s[i])
}

/// What an input line asks for: kind, argument and index. A whole-line
/// command comes first; then a leading `+`, `-` or `/` takes the rest of
/// the line as its pattern; then a line of digits is an index; then a word
/// before the first space names a command whose argument is the rest.
pub open spec fn command_spec(s: Seq<char>) -> (CmdKind, Seq<char>, nat) {
    match exact_command(s) {
        Some(k) => (k, Seq::empty(), 0),
        None => if s[0] == '+' {
            (CmdKind::Plus, s.skip(1), 0)
        } else if s[0] == '-' {
            (CmdKind::Minus, s.skip(1), 0)
        } else if s[0] == '/' {
            (CmdKind::Slash, s.skip(1), 0)
        } else if all_digits(s) {
            match parse_usize_spec(s) {
                Some(n) => (CmdKind::Toggle, Seq::empty(), n as nat),
                None => (CmdKind::InvalidIndex, Seq::empty(), 0),
            }
        } else {
            match find_char(s, ' ') {
                Some(k) => match word_command(s.take(k)) {
                    Some(w) => (w, s.skip(k + 1), 0),
                    None => (CmdKind::Unrecognized, Seq::empty(), 0),
                },
                None => (CmdKind::Unrecognized, Seq::empty(), 0),
            }
        },
    }
}

/// The view of a parsed line.
pub open spec fn command_view(c: Command) -> (CmdKind, Seq<char>, nat) {
    (c.kind, c.arg@, c.index as nat)
}

fn exact_command_exec(s: &str) -> (r: Option<CmdKind>)
    ensures
        r == exact_command(s@),
{
    if str_eq(s, "dir-diff") {
        Some(CmdKind::DirDiff)
    } else if str_eq(s, "try-d") {
        Some(CmdKind::TryD)
    } else if str_eq(s, "try-m") {
        Some(CmdKind::TryM)
    } else if str_eq(s, "ss-d") {
        Some(CmdKind::SsD)
    } else if str_eq(s, "ss-m") {
        Some(CmdKind::SsM)
    } else if str_eq(s, "sc") || str_eq(s, "scan") {
        Some(CmdKind::Scan)
    } else if str_eq(s, "mount-hardware") {
        Some(CmdKind::MountHardware)
    } else if str_eq(s, "l") {
        Some(CmdKind::List)
    } else if str_eq(s, "entfos") {
        Some(CmdKind::Entfos)
    } else if str_eq(s, "write") {
        Some(CmdKind::Write)
    } else if str_eq(s, "reset") {
        Some(CmdKind::Reset)
    } else if str_eq(s, "all") {
        Some(CmdKind::SelectAll)
    } else if str_eq(s, "deselect") {
        Some(CmdKind::Deselect)
    } else if str_eq(s, "fsdel") {
        Some(CmdKind::Fsdel)
    } else if str_eq(s, "del") {
        Some(CmdKind::Del)
    } else if str_eq(s, "exit") || str_eq(s, "quit") {
        Some(CmdKind::Exit)
    } else if str_eq(s, "lbl") {
        Some(CmdKind::ShowLbl)
    } else if str_eq(s, "lbls") {
        Some(CmdKind::Lbls)
    } else if str_eq(s, "+") {
        Some(CmdKind::AddChosen)
    } else if str_eq(s, "-") {
        Some(CmdKind::RemoveChosen)
    } else if s.is_empty() {
        Some(CmdKind::Empty)
    } else {
        None
    }
}

fn word_command_exec(w: &str) -> (r: Option<CmdKind>)
    ensures
        r == word_command(w@),
{
    if str_eq(w, "scan-entfo") {
        Some(CmdKind::ScanEntfo)
    } else if str_eq(w, "where") {
        Some(CmdKind::Where)
    } else if str_eq(w, "lbl") {
        Some(CmdKind::LblInput)
    } else if str_eq(w, "lbls") {
        Some(CmdKind::LblsSearch)
    } else if str_eq(w, "desc") {
        Some(CmdKind::SetDesc)
    } else if str_eq(w, "oldfilename") {
        Some(CmdKind::SetOldFilename)
    } else if str_eq(w, "downloadurl") {
        Some(CmdKind::SetDownloadUrl)
    } else if str_eq(w, "archivefilename") {
        Some(CmdKind::SetArchiveFilename)
    } else if str_eq(w, "copyright") {
        Some(CmdKind::SetCopyright)
    } else if str_eq(w, "fsdel") {
        Some(CmdKind::FsdelPattern)
    } else {
        None
    }
}

fn simple(kind: CmdKind) -> (r: Command)
    ensures
        command_view(r) == (kind, Seq::<char>::empty(), 0nat),
{
    Command { kind, arg: String::new(), index: 0 }
}

/// Reads an input line of the prompt.
pub fn parse_command(iline: &str) -> (r: Command)
    ensures
        command_view(r) == command_spec(iline@),
{
    match exact_command_exec(iline) {
        Some(k) => {
            return simple(k);
        },
        None => {},
    }
    let cs = chars_of(iline);
    let first = cs[0];
    if first == '+' || first == '-' || first == '/' {
        let arg = chars_range(&cs, 1, cs.len());
        assert(cs@.subrange(1, cs@.len() as int) =~= iline@.skip(1));
        let kind = if first == '+' {
            CmdKind::Plus
        } else if first == '-' {
            CmdKind::Minus
        } else {
            CmdKind::Slash
        };
        return Command { kind, arg, index: 0 };
    }
    let mut digits = true;
    let mut i: usize = 0;
    while i < cs.len()
        invariant
            i <= cs.len(),
            digits == (forall|k: int| 0 <= k < i ==> is_digit(#[trigger] cs@[k])),
        decreases cs.len() - i,
    {
        if !('0' <= cs[i] && cs[i] <= '9') {
            digits = false;
        }
        i = i + 1;
    }
    assert(cs@ == iline@);
    if digits {
        return match parse_usize(iline) {
            Some(n) => Command { kind: CmdKind::Toggle, arg: String::new(), index: n },
            None => simple(CmdKind::InvalidIndex),
        };
    }
    match chars_find(cs.as_slice(), ' ') {
        Some(k) => {
            proof {
                lemma_find_char(cs@, ' ');
            }
            let word = chars_range(&cs, 0, k);
            assert(cs@.subrange(0, k as int) =~= iline@.take(k as int));
            match word_command_exec(word.as_str()) {
                Some(w) => {
                    let arg = chars_range(&cs, k + 1, cs.len());
                    assert(cs@.subrange(k + 1, cs@.len() as int) =~= iline@.skip(k + 1));
                    Command { kind: w, arg, index: 0 }
                },
                None => simple(CmdKind::Unrecognized),
            }
        },
        None => simple(CmdKind::Unrecognized),
    }
}

} // verus!
