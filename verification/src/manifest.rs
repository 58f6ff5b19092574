//! The password manifest: a text of lines, the salt first and then one
//! password on each line, in the order in which the items were added.

use vstd::prelude::*;

verus! {

/// The byte that ends a line.
pub const NEWLINE: u8 = 0x0a;

/// What a manifest holds.
#[derive(Debug)]
pub struct Manifest {
    pub salt: Vec<u8>,
    pub passwords: Vec<Vec<u8>>,
}

/// Whether `line` can stand on a line of its own.
pub open spec fn is_line(line: Seq<u8>) -> bool {
    forall|j: int| 0 <= j < line.len() ==> line[j] != NEWLINE
}

/// The byte vectors of `lines` taken as sequences.
pub open spec fn views(lines: Seq<Vec<u8>>) -> Seq<Seq<u8>> {
    Seq::new(lines.len(), |k: int| lines[k]@)
}

/// Number of bytes before the first newline of `text`, or in all of `text`
/// where it holds none.
pub open spec fn line_len(text: Seq<u8>) -> nat
    decreases text.len(),
{
    if text.len() == 0 || text[0] == NEWLINE {
        0
    } else {
        1 + line_len(text.drop_first())
    }
}

/// The lines of `text`. A newline ends a line; what follows the last
/// newline is a line too, unless it is empty.
pub open spec fn lines_of(text: Seq<u8>) -> Seq<Seq<u8>>
    decreases text.len(),
{
    if text.len() == 0 {
        Seq::empty()
    } else {
        let n = line_len(text) as int;
        if n >= text.len() {
            seq![text]
        } else {
            seq![text.take(n)] + lines_of(text.skip(n + 1))
        }
    }
}

/// Every line of `lines`, each followed by a newline.
pub open spec fn render_lines(lines: Seq<Seq<u8>>) -> Seq<u8>
    decreases lines.len(),
{
    if lines.len() == 0 {
        Seq::empty()
    } else {
        lines[0] + seq![NEWLINE] + render_lines(lines.drop_first())
    }
}

/// The text of the manifest of `salt` and `passwords`.
pub open spec fn manifest_text(salt: Seq<u8>, passwords: Seq<Seq<u8>>) -> Seq<u8> {
    render_lines(seq![salt] + passwords)
}

/// Salt and passwords that `text` holds, if it has the two lines that a
/// manifest has at least.
pub open spec fn manifest_of(text: Seq<u8>) -> Option<(Seq<u8>, Seq<Seq<u8>>)> {
    let lines = lines_of(text);
    if lines.len() < 2 {
        None
    } else {
        Some((lines[0], lines.skip(1)))
    }
}

/// The first line of `text` ends where the first newline stands.
pub proof fn lemma_line_len(text: Seq<u8>, n: int)
    requires
        0 <= n <= text.len(),
        forall|j: int| 0 <= j < n ==> text[j] != NEWLINE,
        n == text.len() || text[n] == NEWLINE,
    ensures
        line_len(text) == n,
    decreases n,
{
    if n > 0 {
        lemma_line_len(text.drop_first(), n - 1);
    }
}

/// Adding a line at the end adds it, and a newline, to the text.
pub proof fn lemma_render_push(lines: Seq<Seq<u8>>, line: Seq<u8>)
    ensures
        render_lines(lines.push(line)) == render_lines(lines) + line + seq![NEWLINE],
    decreases lines.len(),
{
    if lines.len() == 0 {
        assert(lines.push(line).drop_first() =~= Seq::<Seq<u8>>::empty());
        assert(render_lines(lines.push(line).drop_first()) =~= Seq::<u8>::empty());
        assert(render_lines(lines) =~= Seq::<u8>::empty());
        assert(lines.push(line)[0] == line);
        assert(render_lines(lines.push(line)) =~= render_lines(lines) + line + seq![NEWLINE]);
    } else {
        assert(lines.push(line).drop_first() =~= lines.drop_first().push(line));
        lemma_render_push(lines.drop_first(), line);
        assert(render_lines(lines.push(line)) =~= render_lines(lines) + line + seq![NEWLINE]);
    }
}

/// Reading the lines of a rendered text gives the lines back, as long as
/// no line holds a newline.
pub proof fn lemma_lines_of_render(lines: Seq<Seq<u8>>)
    requires
        forall|k: int| 0 <= k < lines.len() ==> is_line(#[trigger] lines[k]),
    ensures
        lines_of(render_lines(lines)) == lines,
    decreases lines.len(),
{
    if lines.len() > 0 {
        let first = lines[0];
        let rest = lines.drop_first();
        let text = render_lines(lines);
        assert(is_line(first));
        assert forall|k: int| 0 <= k < rest.len() implies is_line(#[trigger] rest[k]) by {
            assert(rest[k] == lines[k + 1]);
        }
        lemma_line_len(text, first.len() as int);
        lemma_lines_of_render(rest);
        assert(text.take(first.len() as int) =~= first);
        assert(text.skip(first.len() as int + 1) =~= render_lines(rest));
        assert(lines_of(text) =~= lines);
    }
}

/// A manifest that is written and read again gives back the salt and the
/// passwords, as long as none of them holds a newline and there is at
/// least one password.
pub proof fn lemma_manifest_round_trip(salt: Seq<u8>, passwords: Seq<Seq<u8>>)
    requires
        is_line(salt),
        forall|k: int| 0 <= k < passwords.len() ==> is_line(#[trigger] passwords[k]),
        passwords.len() >= 1,
    ensures
        manifest_of(manifest_text(salt, passwords)) == Some((salt, passwords)),
{
    let lines = seq![salt] + passwords;
    assert forall|k: int| 0 <= k < lines.len() implies is_line(#[trigger] lines[k]) by {
        if k > 0 {
            assert(lines[k] == passwords[k - 1]);
        }
    }
    lemma_lines_of_render(lines);
    assert(lines.skip(1) =~= passwords);
}

/// Writes the manifest of `salt` and `passwords`.
pub fn render_manifest(salt: &Vec<u8>, passwords: &Vec<Vec<u8>>) -> (text: Vec<u8>)
    ensures
        text@ == manifest_text(salt@, views(passwords@)),
{
    let mut text: Vec<u8> = salt.clone();
    text.push(NEWLINE);
    let ghost all = seq![salt@] + views(passwords@);
    proof {
        lemma_render_push(Seq::<Seq<u8>>::empty(), salt@);
        assert(Seq::<Seq<u8>>::empty().push(salt@) =~= all.take(1));
        assert(text@ =~= render_lines(all.take(1)));
    }
    let mut i: usize = 0;
    while i < passwords.len()
        invariant
            i <= passwords@.len(),
            all == seq![salt@] + views(passwords@),
            text@ == render_lines(all.take(i + 1)),
        decreases passwords@.len() - i,
    {
        let ghost before = text@;
        let password = &passwords[i];
        let mut j: usize = 0;
        while j < password.len()
            invariant
                j <= password@.len(),
                text@ == before + password@.take(j as int),
            decreases password@.len() - j,
        {
            text.push(password[j]);
            assert(text@ =~= before + password@.take(j + 1));
            j += 1;
        }
        text.push(NEWLINE);
        proof {
            assert(password@.take(password@.len() as int) =~= password@);
            lemma_render_push(all.take(i + 1), password@);
            assert(all.take(i + 1).push(password@) =~= all.take(i + 2));
            assert(text@ =~= render_lines(all.take(i + 2)));
        }
        i += 1;
    }
    assert(all.take(passwords@.len() as int + 1) =~= all);
    text
}

/// Splits `text` into its lines.
pub fn split_lines(text: &Vec<u8>) -> (lines: Vec<Vec<u8>>)
    ensures
        views(lines@) == lines_of(text@),
{
    let mut lines: Vec<Vec<u8>> = Vec::new();
    let mut current: Vec<u8> = Vec::new();
    let mut i: usize = 0;
    let ghost mut start: int = 0;
    assert(text@.skip(0) =~= text@);
    assert(views(lines@) + lines_of(text@) =~= lines_of(text@));
    while i < text.len()
        invariant
            0 <= start <= i <= text@.len(),
            current@ == text@.subrange(start, i as int),
            forall|j: int| start <= j < i ==> text@[j] != NEWLINE,
            lines_of(text@) == views(lines@) + lines_of(text@.skip(start)),
        decreases text@.len() - i,
    {
        if text[i] == NEWLINE {
            proof {
                let tail = text@.skip(start);
                lemma_line_len(tail, i - start);
                assert(tail.take(i - start) =~= current@);
                assert(tail.skip(i - start + 1) =~= text@.skip(i + 1));
                assert(views(lines@.push(current)) =~= views(lines@).push(current@));
                assert(views(lines@).push(current@) + lines_of(text@.skip(i + 1)) =~= views(lines@)
                    + (seq![current@] + lines_of(text@.skip(i + 1))));
                start = i + 1;
            }
            lines.push(current);
            current = Vec::new();
            assert(current@ =~= text@.subrange(start, i + 1));
        } else {
            current.push(text[i]);
            assert(current@ =~= text@.subrange(start, i + 1));
        }
        i += 1;
    }
    proof {
        let tail = text@.skip(start);
        if current@.len() > 0 {
            lemma_line_len(tail, tail.len() as int);
            assert(tail =~= current@);
            assert(views(lines@.push(current)) =~= views(lines@).push(current@));
            assert(views(lines@).push(current@) =~= views(lines@) + seq![current@]);
        } else {
            assert(views(lines@) + Seq::<Seq<u8>>::empty() =~= views(lines@));
        }
    }
    if current.len() > 0 {
        lines.push(current);
    }
    lines
}

/// Reads a manifest: the first line is the salt, every further line a
/// password. `None` where `text` has fewer than two lines.
pub fn parse_manifest(text: &Vec<u8>) -> (r: Option<Manifest>)
    ensures
        match r {
            Some(manifest) => manifest_of(text@) == Some(
                (manifest.salt@, views(manifest.passwords@)),
            ),
            None => manifest_of(text@) is None,
        },
{
    let mut lines = split_lines(text);
    if lines.len() < 2 {
        return None;
    }
    let ghost all = views(lines@);
    let passwords = lines.split_off(1);
    let salt = lines.pop().unwrap();
    proof {
        assert(salt@ == all[0]);
        assert(views(passwords@) =~= all.skip(1));
    }
    Some(Manifest { salt, passwords })
}

} // verus!
