use vstd::prelude::*;
use vstd::string::*;

verus! {

/// Whether a line of a line diff stays, goes or comes.
#[derive(Clone, Copy, Debug, PartialEq, Eq, Structural)]
pub enum ChangeKind {
    Equal,
    Delete,
    Insert,
}

/// One line of a line diff, with its line ending.
pub struct DiffLine {
    pub kind: ChangeKind,
    pub text: String,
}

/// The line diff of two texts: every line of either, in order, with whether
/// it stays, goes or comes; each ends in a newline.
pub uninterp spec fn line_diff_of(old: Seq<char>, new: Seq<char>) -> Seq<(ChangeKind, Seq<char>)>;

pub open spec fn lines_view(ls: Seq<DiffLine>) -> Seq<(ChangeKind, Seq<char>)> {
    ls.map_values(|l: DiffLine| (l.kind, l.text@))
}

/// The mark of a line in a printed diff.
pub open spec fn sign(k: ChangeKind) -> Seq<char> {
    match k {
        ChangeKind::Equal => seq![' '],
        ChangeKind::Delete => seq!['-'],
        ChangeKind::Insert => seq!['+'],
    }
}

/// A printed diff: each line preceded by its mark.
pub open spec fn diff_text(ls: Seq<(ChangeKind, Seq<char>)>) -> Seq<char>
    decreases ls.len(),
{
    if ls.len() == 0 {
        Seq::empty()
    } else {
        let (k, t) = ls.last();
        diff_text(ls.drop_last()) + sign(k) + t
    }
}

/// Relies on similar::TextDiff::from_lines and iter_all_changes (default
/// configuration, no deadline): the changes of the line diff in order, each
/// line as the change's Display writes it.
#[verifier::external_body]
fn line_changes(old: &str, new: &str) -> (r: Vec<DiffLine>)
    ensures
        lines_view(r@) == line_diff_of(old@, new@),
{
    similar::TextDiff::from_lines(old, new)
        .iter_all_changes()
        .map(|c| DiffLine {
            kind: match c.tag() {
                similar::ChangeTag::Equal => ChangeKind::Equal,
                similar::ChangeTag::Delete => ChangeKind::Delete,
                similar::ChangeTag::Insert => ChangeKind::Insert,
            },
            text: c.to_string(),
        })
        .collect()
}

/// Prints diff lines, each preceded by `-`, `+` or a space.
pub fn print_changes(lines: &Vec<DiffLine>) -> (r: String)
    ensures
        r@ == diff_text(lines_view(lines@)),
{
    let mut out = String::new();
    let mut i: usize = 0;
    while i < lines.len()
        invariant
            i <= lines@.len(),
            out@ == diff_text(lines_view(lines@).take(i as int)),
        decreases lines@.len() - i,
    {
        let line = &lines[i];
        let ghost before = out@;
        let mark: &str = match line.kind {
            ChangeKind::Equal => " ",
            ChangeKind::Delete => "-",
            ChangeKind::Insert => "+",
        };
        proof {
            reveal_strlit(" ");
            reveal_strlit("-");
            reveal_strlit("+");
        }
        assert(mark@ == sign(line.kind));
        out.append(mark);
        out.append(line.text.as_str());
        proof {
            let v = lines_view(lines@);
            assert(v.take(i + 1).drop_last() =~= v.take(i as int));
            assert(v.take(i + 1).last() == (line.kind, line.text@));
            assert(out@ == before + sign(line.kind) + line.text@);
            assert(diff_text(v.take(i + 1)) == diff_text(v.take(i as int)) + sign(line.kind) + line.text@);
        }
        i = i + 1;
    }
    proof {
        assert(lines_view(lines@).take(lines@.len() as int) =~= lines_view(lines@));
    }
    out
}

/// The line diff of two texts, printed one line per change, each preceded
/// by `-` (only in `old`), `+` (only in `new`) or a space (in both).
pub fn format_line_diff(old: &str, new: &str) -> (r: String)
    ensures
        r@ == diff_text(line_diff_of(old@, new@)),
{
    let lines = line_changes(old, new);
    print_changes(&lines)
}

} // verus!
