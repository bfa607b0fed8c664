//! The small text formats that nodes take in messages: patterns such as
//! "`0.0 60, 0.5 67`", timed events such as "2.5=>60" and code made of
//! `;`-separated lines with optional `name := expression` assignments.
//! Texts are handled as bytes; the numbers and expressions in the pieces are
//! read by the caller.
use vstd::prelude::*;

verus! {

/// The pieces of `s` between the bytes equal to `sep`, in order; `n`
/// separators give `n + 1` pieces, empty ones included.
pub open spec fn split_on(s: Seq<u8>, sep: u8) -> Seq<Seq<u8>>
    decreases s.len(),
{
    if s.len() == 0 {
        seq![Seq::<u8>::empty()]
    } else {
        let r = split_on(s.drop_last(), sep);
        if s.last() == sep {
            r.push(Seq::<u8>::empty())
        } else {
            r.update(r.len() - 1, r.last().push(s.last()))
        }
    }
}

/// `split_on` always yields at least one piece.
proof fn lemma_split_on_nonempty(s: Seq<u8>, sep: u8)
    ensures
        split_on(s, sep).len() >= 1,
    decreases s.len(),
{
    if s.len() > 0 {
        lemma_split_on_nonempty(s.drop_last(), sep);
    }
}

/// Splits `s` at every byte equal to `sep`.
pub fn split_bytes(s: &[u8], sep: u8) -> (pieces: Vec<Vec<u8>>)
    ensures
        pieces@.map_values(|p: Vec<u8>| p@) == split_on(s@, sep),
{
    let mut pieces: Vec<Vec<u8>> = Vec::new();
    let mut cur: Vec<u8> = Vec::new();
    let mut i: usize = 0;
    while i < s.len()
        invariant
            i <= s@.len(),
            pieces@.map_values(|p: Vec<u8>| p@).push(cur@) == split_on(s@.take(i as int), sep),
        decreases s@.len() - i,
    {
        proof {
            assert(s@.take(i + 1).drop_last() =~= s@.take(i as int));
            lemma_split_on_nonempty(s@.take(i as int), sep);
        }
        if s[i] == sep {
            let done = cur;
            pieces.push(done);
            cur = Vec::new();
            proof {
                assert(pieces@.map_values(|p: Vec<u8>| p@).push(cur@) =~= split_on(s@.take(i + 1), sep));
            }
        } else {
            cur.push(s[i]);
            proof {
                assert(pieces@.map_values(|p: Vec<u8>| p@).push(cur@) =~= split_on(s@.take(i + 1), sep));
            }
        }
        i = i + 1;
    }
    pieces.push(cur);
    proof {
        assert(s@.take(i as int) =~= s@);
        assert(pieces@.map_values(|p: Vec<u8>| p@) =~= split_on(s@, sep));
    }
    pieces
}

/// The views of a list of byte strings.
pub open spec fn views(v: Seq<Vec<u8>>) -> Seq<Seq<u8>> {
    v.map_values(|p: Vec<u8>| p@)
}

/// The pieces of `s` between the leftmost non-overlapping occurrences of
/// the two-byte separator `a b`, scanning from the front.
pub open spec fn split_on2(s: Seq<u8>, a: u8, b: u8) -> Seq<Seq<u8>>
    decreases s.len(),
{
    if s.len() == 0 {
        seq![Seq::<u8>::empty()]
    } else if s.len() >= 2 && s[0] == a && s[1] == b {
        seq![Seq::<u8>::empty()] + split_on2(s.skip(2), a, b)
    } else {
        let r = split_on2(s.skip(1), a, b);
        r.update(0, seq![s[0]] + r[0])
    }
}

/// `split_on2` always yields at least one piece.
proof fn lemma_split_on2_nonempty(s: Seq<u8>, a: u8, b: u8)
    ensures
        split_on2(s, a, b).len() >= 1,
    decreases s.len(),
{
    if s.len() >= 2 && s[0] == a && s[1] == b {
        lemma_split_on2_nonempty(s.skip(2), a, b);
    } else if s.len() > 0 {
        lemma_split_on2_nonempty(s.skip(1), a, b);
    }
}

/// The two-byte sequence `a b` occurs in `s`.
pub open spec fn contains2(s: Seq<u8>, a: u8, b: u8) -> bool {
    exists|i: int| 0 <= i && i + 1 < s.len() && #[trigger] s[i] == a && s[i + 1] == b
}

/// Splits `s` at the leftmost non-overlapping occurrences of `a b`.
pub fn split_bytes2(s: &[u8], a: u8, b: u8) -> (pieces: Vec<Vec<u8>>)
    ensures
        views(pieces@) == split_on2(s@, a, b),
{
    let mut pieces: Vec<Vec<u8>> = Vec::new();
    let mut cur: Vec<u8> = Vec::new();
    let mut i: usize = 0;
    proof {
        assert(s@.skip(0) =~= s@);
        lemma_split_on2_nonempty(s@, a, b);
        assert(views(pieces@) + seq![cur@ + split_on2(s@, a, b)[0]] + split_on2(s@, a, b).drop_first()
            =~= split_on2(s@, a, b));
    }
    while i < s.len()
        invariant
            i <= s@.len(),
            ({
                let r = split_on2(s@.skip(i as int), a, b);
                views(pieces@) + seq![cur@ + r[0]] + r.drop_first() == split_on2(s@, a, b)
            }),
        decreases s@.len() - i,
    {
        let ghost rest = s@.skip(i as int);
        let ghost r = split_on2(rest, a, b);
        let ghost old_pieces = views(pieces@);
        let ghost old_cur = cur@;
        if i + 1 < s.len() && s[i] == a && s[i + 1] == b {
            let done = cur;
            pieces.push(done);
            cur = Vec::new();
            proof {
                assert(rest[0] == a && rest[1] == b);
                assert(rest.skip(2) =~= s@.skip(i + 2));
                let r2 = split_on2(s@.skip(i + 2), a, b);
                lemma_split_on2_nonempty(s@.skip(i + 2), a, b);
                assert(r =~= seq![Seq::<u8>::empty()] + r2);
                assert(views(pieces@) =~= old_pieces.push(old_cur));
                assert(r[0] =~= Seq::<u8>::empty());
                assert(old_cur + r[0] =~= old_cur);
                assert(cur@ + r2[0] =~= r2[0]);
                assert(r.drop_first() =~= r2);
                assert(views(pieces@) + seq![cur@ + r2[0]] + r2.drop_first()
                    =~= old_pieces + seq![old_cur + r[0]] + r.drop_first());
            }
            i = i + 2;
        } else {
            cur.push(s[i]);
            proof {
                assert(rest.skip(1) =~= s@.skip(i + 1));
                let r2 = split_on2(s@.skip(i + 1), a, b);
                lemma_split_on2_nonempty(s@.skip(i + 1), a, b);
                assert(rest[0] == s@[i as int]);
                assert(r =~= r2.update(0, seq![rest[0]] + r2[0]));
                assert(cur@ =~= old_cur.push(rest[0]));
                assert(old_cur + r[0] =~= cur@ + r2[0]);
                assert(r.drop_first() =~= r2.drop_first());
                assert(views(pieces@) + seq![cur@ + r2[0]] + r2.drop_first()
                    =~= old_pieces + seq![old_cur + r[0]] + r.drop_first());
            }
            i = i + 1;
        }
    }
    pieces.push(cur);
    proof {
        assert(s@.skip(i as int) =~= Seq::<u8>::empty());
        assert(views(pieces@) =~= split_on2(s@, a, b));
    }
    pieces
}

/// Whether the two-byte sequence `a b` occurs in `s`.
pub fn contains_bytes2(s: &[u8], a: u8, b: u8) -> (r: bool)
    ensures
        r == contains2(s@, a, b),
{
    let mut i: usize = 0;
    while i < s.len() && i + 1 < s.len()
        invariant
            i <= s@.len(),
            forall|j: int| 0 <= j < i && j + 1 < s@.len() ==> !(#[trigger] s@[j] == a && s@[j + 1] == b),
        decreases s@.len() - i,
    {
        if s[i] == a && s[i + 1] == b {
            return true;
        }
        i = i + 1;
    }
    false
}

/// `s` without the bytes that `drop` lists.
pub open spec fn without_bytes(s: Seq<u8>, drop: Seq<u8>) -> Seq<u8>
    decreases s.len(),
{
    if s.len() == 0 {
        s
    } else if drop.contains(s.last()) {
        without_bytes(s.drop_last(), drop)
    } else {
        without_bytes(s.drop_last(), drop).push(s.last())
    }
}

/// Removes every byte that `drop` lists from `s`.
pub fn remove_bytes(s: &[u8], drop: &[u8]) -> (r: Vec<u8>)
    ensures
        r@ == without_bytes(s@, drop@),
{
    let mut r: Vec<u8> = Vec::new();
    let mut i: usize = 0;
    while i < s.len()
        invariant
            i <= s@.len(),
            r@ == without_bytes(s@.take(i as int), drop@),
        decreases s@.len() - i,
    {
        proof {
            assert(s@.take(i + 1).drop_last() =~= s@.take(i as int));
        }
        let mut listed = false;
        let mut k: usize = 0;
        while k < drop.len()
            invariant
                k <= drop@.len(),
                i < s@.len(),
                listed == exists|j: int| 0 <= j < k && drop@[j] == s@[i as int],
            decreases drop@.len() - k,
        {
            if drop[k] == s[i] {
                listed = true;
            }
            k = k + 1;
        }
        if !listed {
            r.push(s[i]);
        }
        i = i + 1;
    }
    proof {
        assert(s@.take(i as int) =~= s@);
    }
    r
}

/// The pieces that are not empty, in order.
pub open spec fn nonempty_pieces(p: Seq<Seq<u8>>) -> Seq<Seq<u8>>
    decreases p.len(),
{
    if p.len() == 0 {
        p
    } else if p.last().len() == 0 {
        nonempty_pieces(p.drop_last())
    } else {
        nonempty_pieces(p.drop_last()).push(p.last())
    }
}

/// Drops the empty pieces of a list.
fn keep_nonempty(p: Vec<Vec<u8>>) -> (r: Vec<Vec<u8>>)
    ensures
        views(r@) == nonempty_pieces(views(p@)),
{
    let ghost pv = views(p@);
    let mut r: Vec<Vec<u8>> = Vec::new();
    let mut rest = p;
    let ghost mut k: int = 0;
    while rest.len() > 0
        invariant
            0 <= k <= pv.len(),
            views(rest@) == pv.skip(k),
            views(r@) == nonempty_pieces(pv.take(k)),
        decreases rest@.len(),
    {
        let ghost before = rest@;
        proof {
            assert(views(before).len() == before.len());
            assert(k < pv.len());
            assert(views(before)[0] == pv.skip(k)[0]);
            assert(pv.take(k + 1).drop_last() =~= pv.take(k));
        }
        let x = rest.remove(0);
        proof {
            assert(x@ == pv[k]);
            assert(rest@ =~= before.subrange(1, before.len() as int));
            assert forall|j: int| 0 <= j < rest@.len() implies #[trigger] views(rest@)[j] == pv.skip(k + 1)[j] by {
                assert(rest@[j] == before[j + 1]);
                assert(views(before)[j + 1] == pv.skip(k)[j + 1]);
            }
            assert(views(rest@) =~= pv.skip(k + 1));
        }
        if x.len() > 0 {
            r.push(x);
            proof {
                assert(views(r@) =~= nonempty_pieces(pv.take(k)).push(pv[k]));
            }
        }
        proof {
            k = k + 1;
        }
    }
    proof {
        assert(pv.take(k) =~= pv);
    }
    r
}

/// The events of a pattern text: backticks are dropped, the text is cut at
/// commas, and each event is cut at spaces into its non-empty words.
pub open spec fn pattern_events(s: Seq<u8>) -> Seq<Seq<Seq<u8>>> {
    let events = split_on(without_bytes(s, seq![BACKTICK]), COMMA);
    Seq::new(events.len(), |e: int| nonempty_pieces(split_on(events[e], SPACE)))
}

/// The byte of a backtick.
pub const BACKTICK: u8 = 0x60;

/// The byte of a comma.
pub const COMMA: u8 = 0x2C;

/// The byte of a space.
pub const SPACE: u8 = 0x20;

/// The byte of a tab.
pub const TAB: u8 = 0x09;

/// The byte of a line feed.
pub const NEWLINE: u8 = 0x0A;

/// The byte of a semicolon.
pub const SEMICOLON: u8 = 0x3B;

/// The byte of a colon.
pub const COLON: u8 = 0x3A;

/// The byte of an equals sign.
pub const EQUALS: u8 = 0x3D;

/// The byte of a greater-than sign.
pub const GREATER: u8 = 0x3E;

/// Cuts a pattern text into events and each event into its words.
pub fn parse_pattern(s: &[u8]) -> (events: Vec<Vec<Vec<u8>>>)
    ensures
        events@.len() == pattern_events(s@).len(),
        forall|e: int| 0 <= e < events@.len() ==> views(#[trigger] events@[e]@) == pattern_events(s@)[e],
{
    let drop = [BACKTICK];
    let clean = remove_bytes(s, &drop);
    proof {
        assert(drop@ =~= seq![BACKTICK]);
    }
    let parts = split_bytes(clean.as_slice(), COMMA);
    let ghost pv = views(parts@);
    let mut events: Vec<Vec<Vec<u8>>> = Vec::new();
    let mut i: usize = 0;
    while i < parts.len()
        invariant
            i <= parts@.len(),
            pv == views(parts@),
            pv == split_on(without_bytes(s@, seq![BACKTICK]), COMMA),
            events@.len() == i,
            forall|e: int| 0 <= e < i ==> views(#[trigger] events@[e]@) == pattern_events(s@)[e],
        decreases parts@.len() - i,
    {
        let words = split_bytes(parts[i].as_slice(), SPACE);
        let kept = keep_nonempty(words);
        proof {
            assert(pv[i as int] == parts@[i as int]@);
        }
        events.push(kept);
        i = i + 1;
    }
    events
}

/// A line of code: the name it assigns, if any, and its expression.
pub struct CodeLine {
    pub var: Option<Vec<u8>>,
    pub expr: Vec<u8>,
}

/// The lines of a code text: the text is cut at semicolons; a line holding
/// `:=` assigns to the name before the first `:=` (with spaces, tabs and
/// line feeds dropped) the expression between it and the next `:=`; any
/// other line is an expression alone.
pub open spec fn code_line(line: Seq<u8>) -> (Option<Seq<u8>>, Seq<u8>) {
    let parts = split_on2(line, COLON, EQUALS);
    if contains2(line, COLON, EQUALS) {
        (Some(without_bytes(parts[0], seq![SPACE, TAB, NEWLINE])), parts[1])
    } else {
        (None, parts[0])
    }
}

/// A line with `:=` splits into at least two pieces.
proof fn lemma_split_on2_found(s: Seq<u8>, a: u8, b: u8)
    requires
        contains2(s, a, b),
    ensures
        split_on2(s, a, b).len() >= 2,
    decreases s.len(),
{
    if s.len() >= 2 && s[0] == a && s[1] == b {
        lemma_split_on2_nonempty(s.skip(2), a, b);
    } else {
        let i = choose|i: int| 0 <= i && i + 1 < s.len() && #[trigger] s[i] == a && s[i + 1] == b;
        assert(i >= 1);
        let t = s.skip(1);
        assert(t[i - 1] == a && t[i] == b);
        lemma_split_on2_found(t, a, b);
    }
}

/// Cuts a code text into lines of optional assignment and expression.
pub fn parse_code(code: &[u8]) -> (lines: Vec<CodeLine>)
    ensures
        lines@.len() == split_on(code@, SEMICOLON).len(),
        forall|k: int|
            0 <= k < lines@.len() ==> {
                let want = code_line(split_on(code@, SEMICOLON)[k]);
                &&& (#[trigger] lines@[k]).expr@ == want.1
                &&& match lines@[k].var {
                    Some(v) => want.0 == Some(v@),
                    None => want.0 is None,
                }
            },
{
    let raw = split_bytes(code, SEMICOLON);
    let ghost rv = views(raw@);
    let mut lines: Vec<CodeLine> = Vec::new();
    let mut k: usize = 0;
    while k < raw.len()
        invariant
            k <= raw@.len(),
            rv == views(raw@),
            rv == split_on(code@, SEMICOLON),
            lines@.len() == k,
            forall|j: int|
                0 <= j < k ==> {
                    let want = code_line(split_on(code@, SEMICOLON)[j]);
                    &&& (#[trigger] lines@[j]).expr@ == want.1
                    &&& match lines@[j].var {
                        Some(v) => want.0 == Some(v@),
                        None => want.0 is None,
                    }
                },
        decreases raw@.len() - k,
    {
        let line = raw[k].as_slice();
        proof {
            assert(rv[k as int] == line@);
        }
        let mut parts = split_bytes2(line, COLON, EQUALS);
        proof {
            lemma_split_on2_nonempty(line@, COLON, EQUALS);
        }
        if contains_bytes2(line, COLON, EQUALS) {
            proof {
                lemma_split_on2_found(line@, COLON, EQUALS);
            }
            let drop = [SPACE, TAB, NEWLINE];
            proof {
                assert(drop@ =~= seq![SPACE, TAB, NEWLINE]);
            }
            let name = remove_bytes(parts[0].as_slice(), &drop);
            let expr = parts.remove(1);
            lines.push(CodeLine { var: Some(name), expr });
        } else {
            let expr = parts.remove(0);
            lines.push(CodeLine { var: None, expr });
        }
        k = k + 1;
    }
    lines
}

/// The two pieces of a timed event "time=>value", or nothing when the text
/// holds no `=>`. (A text with several `=>` gives more pieces, which the
/// caller rejects.)
pub fn parse_timed_event(s: &[u8]) -> (pieces: Option<Vec<Vec<u8>>>)
    ensures
        match pieces {
            Some(p) => contains2(s@, EQUALS, GREATER) && views(p@) == split_on2(s@, EQUALS, GREATER),
            None => !contains2(s@, EQUALS, GREATER),
        },
{
    if contains_bytes2(s, EQUALS, GREATER) {
        Some(split_bytes2(s, EQUALS, GREATER))
    } else {
        None
    }
}

/// `i` is where the first `:=` of `line` starts.
pub open spec fn first_assign_at(line: Seq<u8>, i: int) -> bool {
    &&& 0 <= i
    &&& i + 1 < line.len()
    &&& line[i] == COLON
    &&& line[i + 1] == EQUALS
    &&& forall|j: int| 0 <= j < i ==> !(#[trigger] line[j] == COLON && line[j + 1] == EQUALS)
}

/// A byte that a name never holds: a space, a tab or a line feed.
pub open spec fn blank(b: u8) -> bool {
    b == SPACE || b == TAB || b == NEWLINE
}

/// The bytes dropped from a name.
pub open spec fn blanks() -> Seq<u8> {
    seq![SPACE, TAB, NEWLINE]
}

/// The first piece of a split at `a b` is the text before the first `a b`.
proof fn lemma_split_on2_first(s: Seq<u8>, a: u8, b: u8, i: int)
    requires
        0 <= i,
        i + 1 < s.len(),
        s[i] == a,
        s[i + 1] == b,
        forall|j: int| 0 <= j < i ==> !(#[trigger] s[j] == a && s[j + 1] == b),
    ensures
        split_on2(s, a, b)[0] == s.take(i),
    decreases s.len(),
{
    if i == 0 {
        assert(s.take(0) =~= Seq::<u8>::empty());
    } else {
        assert(!(s[0] == a && s[1] == b));
        let t = s.skip(1);
        assert forall|j: int| 0 <= j < i - 1 implies !(#[trigger] t[j] == a && t[j + 1] == b) by {
            assert(t[j] == s[j + 1] && t[j + 1] == s[j + 2]);
            assert(!(s[j + 1] == a && s[j + 2] == b));
        }
        lemma_split_on2_first(t, a, b, i - 1);
        lemma_split_on2_nonempty(t, a, b);
        assert(seq![s[0]] + t.take(i - 1) =~= s.take(i));
    }
}

/// Dropping the blanks from `s` keeps every other byte, in order, and
/// leaves no blank.
proof fn lemma_without_blanks(s: Seq<u8>)
    ensures
        without_bytes(s, blanks()) == s.filter(|c: u8| !blank(c)),
        forall|k: int|
            0 <= k < without_bytes(s, blanks()).len() ==> !blank(
                #[trigger] without_bytes(s, blanks())[k],
            ),
    decreases s.len(),
{
    reveal_with_fuel(Seq::filter, 1);
    let d = blanks();
    if s.len() > 0 {
        lemma_without_blanks(s.drop_last());
        let c = s.last();
        if blank(c) {
            assert(c == d[0] || c == d[1] || c == d[2]);
            assert(d.contains(c));
        } else {
            assert(!d.contains(c)) by {
                if d.contains(c) {
                    let w = choose|w: int| 0 <= w < d.len() && d[w] == c;
                }
            }
        }
    }
}

/// The name a code line assigns to: a line whose first `:=` starts at `i`
/// names the text before it with every space, tab and line feed dropped
/// and every other byte kept in order; a name holds no blank.
pub proof fn lemma_assigned_name(line: Seq<u8>, i: int)
    requires
        first_assign_at(line, i),
    ensures
        code_line(line).0 == Some(line.take(i).filter(|c: u8| !blank(c))),
        code_line(line).0 matches Some(name) && forall|k: int| 0 <= k < name.len() ==> !blank(#[trigger] name[k]),
{
    assert(line[i] == COLON && line[i + 1] == EQUALS);
    assert(contains2(line, COLON, EQUALS));
    lemma_split_on2_first(line, COLON, EQUALS, i);
    lemma_without_blanks(line.take(i));
}

/// The words of a list of pieces are its non-empty pieces, in order: no
/// piece of one byte or more is dropped and no empty piece is kept.
pub proof fn lemma_words_are_nonempty_pieces(p: Seq<Seq<u8>>)
    ensures
        nonempty_pieces(p) == p.filter(|w: Seq<u8>| w.len() > 0),
        forall|k: int| 0 <= k < nonempty_pieces(p).len() ==> (#[trigger] nonempty_pieces(p)[k]).len() > 0,
    decreases p.len(),
{
    reveal_with_fuel(Seq::filter, 1);
    if p.len() > 0 {
        lemma_words_are_nonempty_pieces(p.drop_last());
    }
}

/// The words of each event of a pattern are exactly the non-empty pieces
/// between spaces of that event's text, in order.
pub proof fn lemma_pattern_words(s: Seq<u8>)
    ensures
        forall|e: int|
            0 <= e < pattern_events(s).len() ==> #[trigger] pattern_events(s)[e] == split_on(
                split_on(without_bytes(s, seq![BACKTICK]), COMMA)[e],
                SPACE,
            ).filter(|w: Seq<u8>| w.len() > 0),
{
    assert forall|e: int| 0 <= e < pattern_events(s).len() implies #[trigger] pattern_events(s)[e] == split_on(
        split_on(without_bytes(s, seq![BACKTICK]), COMMA)[e],
        SPACE,
    ).filter(|w: Seq<u8>| w.len() > 0) by {
        lemma_words_are_nonempty_pieces(split_on(split_on(without_bytes(s, seq![BACKTICK]), COMMA)[e], SPACE));
    }
}

} // verus!
