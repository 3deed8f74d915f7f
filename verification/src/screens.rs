//! The decisions of the two full-screen commands, one key at a time: choosing how to resolve a
//! conflict, and choosing which changed files go into the second of two commits.
use vstd::prelude::*;

verus! {

/// A key, as the screens tell them apart.
#[derive(Clone, Copy, Debug, PartialEq, Eq, Structural)]
pub enum Key {
    Char(char),
    Enter,
    Esc,
    Up,
    Down,
    Other,
}

/// How a conflict is to be resolved.
#[derive(Clone, Copy, Debug, PartialEq, Eq, Structural)]
pub enum Resolution {
    Ours,
    Theirs,
    Both,
    Unresolved,
}

/// What the resolve screen holds: the choice made so far and how far the lines are scrolled.
#[derive(Clone, Copy, Debug, PartialEq, Eq, Structural)]
pub struct ResolveState {
    pub choice: Resolution,
    pub scroll: usize,
}

/// What follows a key on a screen.
#[derive(Clone, Copy, Debug, PartialEq, Eq, Structural)]
pub enum Step {
    Stay,
    Cancel,
    Accept,
}

/// The resolve screen after `key`, with `max_lines` lines in the longest version: `q` or Esc
/// cancels; Enter accepts once a choice is made; space or `o` chooses ours, `t` theirs, `b`
/// both; Down or `j` scrolls one line further while a line is left below, Up or `k` one line
/// back while not at the top.
pub open spec fn spec_resolve_step(s: ResolveState, key: Key, max_lines: nat) -> (ResolveState, Step) {
    match key {
        Key::Char('q') | Key::Esc => (s, Step::Cancel),
        Key::Enter => if s.choice is Unresolved {
            (s, Step::Stay)
        } else {
            (s, Step::Accept)
        },
        Key::Char(' ') | Key::Char('o') => (ResolveState { choice: Resolution::Ours, ..s }, Step::Stay),
        Key::Char('t') => (ResolveState { choice: Resolution::Theirs, ..s }, Step::Stay),
        Key::Char('b') => (ResolveState { choice: Resolution::Both, ..s }, Step::Stay),
        Key::Down | Key::Char('j') => if s.scroll + 1 < max_lines {
            (ResolveState { scroll: (s.scroll + 1) as usize, ..s }, Step::Stay)
        } else {
            (s, Step::Stay)
        },
        Key::Up | Key::Char('k') => if s.scroll > 0 {
            (ResolveState { scroll: (s.scroll - 1) as usize, ..s }, Step::Stay)
        } else {
            (s, Step::Stay)
        },
        _ => (s, Step::Stay),
    }
}

/// The resolve screen after `key` (see `spec_resolve_step`).
pub fn resolve_step(s: ResolveState, key: Key, max_lines: usize) -> (r: (ResolveState, Step))
    ensures
        r == spec_resolve_step(s, key, max_lines as nat),
{
    match key {
        Key::Char('q') | Key::Esc => (s, Step::Cancel),
        Key::Enter => match s.choice {
            Resolution::Unresolved => (s, Step::Stay),
            _ => (s, Step::Accept),
        },
        Key::Char(' ') | Key::Char('o') => (ResolveState { choice: Resolution::Ours, scroll: s.scroll }, Step::Stay),
        Key::Char('t') => (ResolveState { choice: Resolution::Theirs, scroll: s.scroll }, Step::Stay),
        Key::Char('b') => (ResolveState { choice: Resolution::Both, scroll: s.scroll }, Step::Stay),
        Key::Down | Key::Char('j') => {
            if s.scroll < max_lines && s.scroll + 1 < max_lines {
                (ResolveState { choice: s.choice, scroll: s.scroll + 1 }, Step::Stay)
            } else {
                (s, Step::Stay)
            }
        },
        Key::Up | Key::Char('k') => {
            if s.scroll > 0 {
                (ResolveState { choice: s.choice, scroll: s.scroll - 1 }, Step::Stay)
            } else {
                (s, Step::Stay)
            }
        },
        _ => (s, Step::Stay),
    }
}

/// The lines that a choice keeps: ours, theirs, or ours followed by theirs.
pub open spec fn chosen_lines(choice: Resolution, ours: Seq<Seq<char>>, theirs: Seq<Seq<char>>) -> Seq<Seq<char>> {
    match choice {
        Resolution::Ours => ours,
        Resolution::Theirs => theirs,
        Resolution::Both => ours + theirs,
        Resolution::Unresolved => Seq::empty(),
    }
}

/// The texts of a list.
pub open spec fn texts_of(v: Seq<String>) -> Seq<Seq<char>> {
    v.map_values(|s: String| s@)
}

/// Copies of the texts of `v`.
fn copy_texts(v: &Vec<String>, out: &mut Vec<String>)
    ensures
        texts_of(final(out)@) == texts_of(old(out)@) + texts_of(v@),
{
    let ghost o = texts_of(out@);
    let mut i: usize = 0;
    while i < v.len()
        invariant
            i <= v@.len(),
            texts_of(out@) == o + texts_of(v@).take(i as int),
        decreases v.len() - i,
    {
        let ghost before = texts_of(out@);
        out.push(v[i].clone());
        assert(texts_of(out@) =~= before.push(v@[i as int]@));
        assert(texts_of(v@).take(i + 1) =~= texts_of(v@).take(i as int).push(v@[i as int]@));
        i = i + 1;
    }
    assert(texts_of(v@).take(v@.len() as int) =~= texts_of(v@));
}

/// The lines that the choice `choice` keeps (see `chosen_lines`).
pub fn resolution_lines(choice: Resolution, ours: &Vec<String>, theirs: &Vec<String>) -> (r: Vec<String>)
    ensures
        texts_of(r@) == chosen_lines(choice, texts_of(ours@), texts_of(theirs@)),
{
    let mut out: Vec<String> = Vec::new();
    assert(texts_of(out@) =~= Seq::<Seq<char>>::empty());
    match choice {
        Resolution::Ours => copy_texts(ours, &mut out),
        Resolution::Theirs => copy_texts(theirs, &mut out),
        Resolution::Both => {
            copy_texts(ours, &mut out);
            copy_texts(theirs, &mut out);
        },
        Resolution::Unresolved => {},
    }
    assert(Seq::<Seq<char>>::empty() + texts_of(ours@) =~= texts_of(ours@));
    assert(Seq::<Seq<char>>::empty() + texts_of(theirs@) =~= texts_of(theirs@));
    out
}

/// What the split screen holds: for each changed file whether it goes into the second commit,
/// and the file under the cursor.
pub struct SplitState {
    pub in_second: Vec<bool>,
    pub cursor: usize,
}

/// The split screen after `key`: `q` or Esc cancels; Enter accepts; Up or `k` moves the
/// cursor up while not at the top, Down or `j` down while not at the bottom; space moves the
/// file under the cursor to the other commit.
pub open spec fn spec_split_step(flags: Seq<bool>, cursor: nat, key: Key) -> (Seq<bool>, nat, Step) {
    match key {
        Key::Char('q') | Key::Esc => (flags, cursor, Step::Cancel),
        Key::Enter => (flags, cursor, Step::Accept),
        Key::Up | Key::Char('k') => if cursor > 0 {
            (flags, (cursor - 1) as nat, Step::Stay)
        } else {
            (flags, cursor, Step::Stay)
        },
        Key::Down | Key::Char('j') => if cursor + 1 < flags.len() {
            (flags, cursor + 1, Step::Stay)
        } else {
            (flags, cursor, Step::Stay)
        },
        Key::Char(' ') => (flags.update(cursor as int, !flags[cursor as int]), cursor, Step::Stay),
        _ => (flags, cursor, Step::Stay),
    }
}

/// Applies `key` to the split screen (see `spec_split_step`); the cursor stays on a file.
pub fn split_step(s: &mut SplitState, key: Key) -> (r: Step)
    requires
        old(s).cursor < old(s).in_second@.len(),
    ensures
        final(s).cursor < final(s).in_second@.len(),
        (final(s).in_second@, final(s).cursor as nat, r) == spec_split_step(
            old(s).in_second@,
            old(s).cursor as nat,
            key,
        ),
{
    match key {
        Key::Char('q') | Key::Esc => Step::Cancel,
        Key::Enter => Step::Accept,
        Key::Up | Key::Char('k') => {
            if s.cursor > 0 {
                s.cursor = s.cursor - 1;
            }
            Step::Stay
        },
        Key::Down | Key::Char('j') => {
            if s.cursor < s.in_second.len() - 1 {
                s.cursor = s.cursor + 1;
            }
            Step::Stay
        },
        Key::Char(' ') => {
            let c = s.cursor;
            let f = s.in_second[c];
            s.in_second.set(c, !f);
            Step::Stay
        },
        _ => Step::Stay,
    }
}

/// The paths of `paths` whose flag is `side`, in order.
pub open spec fn paths_on(paths: Seq<Seq<char>>, flags: Seq<bool>, side: bool) -> Seq<Seq<char>>
    decreases paths.len(),
{
    if paths.len() == 0 {
        Seq::empty()
    } else if flags[paths.len() - 1] == side {
        paths_on(paths.drop_last(), flags, side).push(paths.last())
    } else {
        paths_on(paths.drop_last(), flags, side)
    }
}

/// The files of the first commit (flag clear) and of the second (flag set), each in order.
pub fn split_sides(paths: &Vec<String>, in_second: &Vec<bool>) -> (r: (Vec<String>, Vec<String>))
    requires
        paths@.len() == in_second@.len(),
    ensures
        texts_of(r.0@) == paths_on(texts_of(paths@), in_second@, false),
        texts_of(r.1@) == paths_on(texts_of(paths@), in_second@, true),
{
    let mut first: Vec<String> = Vec::new();
    let mut second: Vec<String> = Vec::new();
    let mut i: usize = 0;
    while i < paths.len()
        invariant
            i <= paths@.len(),
            paths@.len() == in_second@.len(),
            texts_of(first@) == paths_on(texts_of(paths@).take(i as int), in_second@, false),
            texts_of(second@) == paths_on(texts_of(paths@).take(i as int), in_second@, true),
        decreases paths.len() - i,
    {
        let ghost t = texts_of(paths@).take(i + 1);
        assert(t.drop_last() =~= texts_of(paths@).take(i as int));
        assert(t.last() == paths@[i as int]@);
        let ghost f0 = texts_of(first@);
        let ghost s0 = texts_of(second@);
        if in_second[i] {
            second.push(paths[i].clone());
            assert(texts_of(second@) =~= s0.push(paths@[i as int]@));
        } else {
            first.push(paths[i].clone());
            assert(texts_of(first@) =~= f0.push(paths@[i as int]@));
        }
        i = i + 1;
    }
    assert(texts_of(paths@).take(paths@.len() as int) =~= texts_of(paths@));
    (first, second)
}

} // verus!
