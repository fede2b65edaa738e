//! Resolved chunk paths: splitting on `/`, joining, and the hexadecimal
//! rendering used for hashes that have no known path.

use vstd::prelude::*;

verus! {

/// The character that separates the components of a path.
pub open spec fn is_sep(c: char) -> bool {
    c == '/'
}

/// `s` holds no separator.
pub open spec fn no_sep(s: Seq<char>) -> bool {
    forall|i: int| 0 <= i < s.len() ==> !is_sep(#[trigger] s[i])
}

/// The `/`-separated components of `s`, as `str::split('/')` yields them: never empty,
/// and a component is empty where two separators meet or at either end.
pub open spec fn split_path(s: Seq<char>) -> Seq<Seq<char>>
    decreases s.len(),
{
    if s.len() == 0 {
        seq![Seq::<char>::empty()]
    } else {
        let parts = split_path(s.drop_last());
        if is_sep(s.last()) {
            parts.push(Seq::<char>::empty())
        } else {
            parts.update(parts.len() - 1, parts.last().push(s.last()))
        }
    }
}

/// The components of `cs` joined with `/` between them.
pub open spec fn join_path(cs: Seq<Seq<char>>) -> Seq<char>
    decreases cs.len(),
{
    if cs.len() == 0 {
        Seq::<char>::empty()
    } else if cs.len() == 1 {
        cs[0]
    } else {
        cs[0] + seq!['/'] + join_path(cs.drop_first())
    }
}

/// The path reached from `parent` by descending through the names `cs` in turn.
pub open spec fn extend_path(parent: Seq<char>, cs: Seq<Seq<char>>) -> Seq<char>
    decreases cs.len(),
{
    if cs.len() == 0 {
        parent
    } else {
        extend_path(child_path(parent, cs[0]), cs.drop_first())
    }
}

/// The path of an item called `name` inside a parent whose path is `parent`
/// (the empty path for the root).
pub open spec fn child_path(parent: Seq<char>, name: Seq<char>) -> Seq<char> {
    if parent.len() == 0 {
        name
    } else {
        parent + seq!['/'] + name
    }
}

pub proof fn lemma_split_path_len(s: Seq<char>)
    ensures
        split_path(s).len() >= 1,
    decreases s.len(),
{
    if s.len() > 0 {
        lemma_split_path_len(s.drop_last());
    }
}

/// Splits `s` on every `/`.
pub fn split_components(s: &str) -> (r: Vec<String>)
    ensures
        r@.map_values(|c: String| c@) == split_path(s@),
{
    let n = s.unicode_len();
    let mut parts: Vec<String> = Vec::new();
    let mut start: usize = 0;
    let mut i: usize = 0;
    proof {
        assert(s@.take(0) =~= Seq::<char>::empty());
        assert(parts@.map_values(|c: String| c@).push(s@.subrange(0, 0)) =~= seq![Seq::<char>::empty()]);
    }
    while i < n
        invariant
            n == s@.len(),
            start <= i <= n,
            split_path(s@.take(i as int)) == parts@.map_values(|c: String| c@).push(
                s@.subrange(start as int, i as int),
            ),
        decreases n - i,
    {
        let c = s.get_char(i);
        proof {
            assert(s@.take(i + 1).drop_last() =~= s@.take(i as int));
            assert(s@.take(i + 1).last() == c);
        }
        if c == '/' {
            let part = s.substring_char(start, i).to_string();
            let ghost before = parts@;
            proof {
                assert(s@.subrange(i + 1, i + 1) =~= Seq::<char>::empty());
            }
            parts.push(part);
            start = i + 1;
            proof {
                assert(parts@.map_values(|c: String| c@) =~= before.map_values(|c: String| c@).push(part@));
            }
        } else {
            proof {
                assert(s@.subrange(start as int, i + 1) =~= s@.subrange(start as int, i as int).push(c));
            }
        }
        i = i + 1;
    }
    let last = s.substring_char(start, n).to_string();
    parts.push(last);
    proof {
        assert(s@.take(n as int) =~= s@);
    }
    assert(parts@.map_values(|c: String| c@) =~= split_path(s@));
    parts
}


/// The lowercase hexadecimal digit for `d`.
pub open spec fn hex_digit(d: nat) -> char {
    if d < 10 {
        (('0' as u32) + d) as char
    } else {
        (('a' as u32) + d - 10) as char
    }
}

/// The lowercase hexadecimal digits of `n`, without leading zeros ("0" for zero).
pub open spec fn hex_digits(n: nat) -> Seq<char>
    decreases n,
{
    if n < 16 {
        seq![hex_digit(n)]
    } else {
        hex_digits(n / 16).push(hex_digit(n % 16))
    }
}

/// `n` written as `0x` and its lowercase hexadecimal digits.
pub open spec fn hex_literal_of(n: u64) -> Seq<char> {
    seq!['0', 'x'] + hex_digits(n as nat)
}

/// The component list `cs` as plain character sequences.
pub open spec fn comps_view(cs: Seq<String>) -> Seq<Seq<char>> {
    cs.map_values(|c: String| c@)
}

/// Builds the path of a child called `name` of a parent whose path is `parent`.
pub fn make_child_path(parent: &str, name: &str) -> (r: String)
    ensures
        r@ == child_path(parent@, name@),
{
    if parent.unicode_len() == 0 {
        String::from_str(name)
    } else {
        let mut s = String::from_str(parent);
        s.append("/");
        s.append(name);
        proof {
            reveal_strlit("/");
        }
        s
    }
}

/// Compares two strings character by character.
pub fn str_equal(a: &str, b: &str) -> (r: bool)
    ensures
        r == (a@ == b@),
{
    let n = a.unicode_len();
    if n != b.unicode_len() {
        return false;
    }
    let mut i: usize = 0;
    while i < n
        invariant
            n == a@.len() == b@.len(),
            i <= n,
            a@.take(i as int) == b@.take(i as int),
        decreases n - i,
    {
        if a.get_char(i) != b.get_char(i) {
            return false;
        }
        proof {
            assert(a@.take(i + 1) =~= a@.take(i as int).push(a@[i as int]));
            assert(b@.take(i + 1) =~= b@.take(i as int).push(b@[i as int]));
        }
        i = i + 1;
    }
    assert(a@ =~= a@.take(n as int));
    assert(b@ =~= b@.take(n as int));
    true
}


/// No component of a split holds a separator.
pub proof fn lemma_split_path_no_sep(s: Seq<char>, m: int)
    requires
        0 <= m < split_path(s).len(),
    ensures
        no_sep(split_path(s)[m]),
    decreases s.len(),
{
    if s.len() > 0 {
        let parts = split_path(s.drop_last());
        lemma_split_path_len(s.drop_last());
        if is_sep(s.last()) {
            if m < parts.len() {
                lemma_split_path_no_sep(s.drop_last(), m);
            }
        } else {
            lemma_split_path_no_sep(s.drop_last(), m);
            if m == parts.len() - 1 {
                let c = parts.last();
                assert forall|i: int| 0 <= i < c.push(s.last()).len() implies !is_sep(
                    #[trigger] c.push(s.last())[i],
                ) by {
                    if i < c.len() {
                        assert(c.push(s.last())[i] == c[i]);
                    }
                }
            }
        }
    }
}


/// A string without separator splits into itself alone.
pub proof fn lemma_split_path_no_sep_whole(a: Seq<char>)
    requires
        no_sep(a),
    ensures
        split_path(a) == seq![a],
    decreases a.len(),
{
    if a.len() > 0 {
        let b = a.drop_last();
        assert(no_sep(b)) by {
            assert forall|i: int| 0 <= i < b.len() implies !is_sep(#[trigger] b[i]) by {
                assert(b[i] == a[i]);
            }
        }
        lemma_split_path_no_sep_whole(b);
        assert(!is_sep(a[a.len() - 1]));
        assert(b.push(a.last()) =~= a);
        assert(seq![b].update(0, b.push(a.last())) =~= seq![a]);
    } else {
        assert(a =~= Seq::<char>::empty());
    }
}

/// Splitting `a/b`, where `a` holds no separator, gives `a` and then the split of `b`.
pub proof fn lemma_split_path_prepend(a: Seq<char>, b: Seq<char>)
    requires
        no_sep(a),
    ensures
        split_path(a + seq!['/'] + b) == seq![a] + split_path(b),
    decreases b.len(),
{
    let s = a + seq!['/'] + b;
    if b.len() == 0 {
        assert(s.drop_last() =~= a);
        lemma_split_path_no_sep_whole(a);
        assert(seq![a].push(Seq::<char>::empty()) =~= seq![a] + seq![Seq::<char>::empty()]);
    } else {
        lemma_split_path_prepend(a, b.drop_last());
        assert(s.drop_last() =~= a + seq!['/'] + b.drop_last());
        assert(s.last() == b.last());
        lemma_split_path_len(b.drop_last());
        let pb = split_path(b.drop_last());
        if is_sep(b.last()) {
            assert((seq![a] + pb).push(Seq::<char>::empty()) =~= seq![a] + pb.push(
                Seq::<char>::empty(),
            ));
        } else {
            let q = seq![a] + pb;
            assert(q.last() == pb.last());
            assert(q.update(q.len() - 1, q.last().push(b.last())) =~= seq![a] + pb.update(
                pb.len() - 1,
                pb.last().push(b.last()),
            ));
        }
    }
}

/// Joining components that hold no separator and splitting again gives them back.
pub proof fn lemma_split_join(cs: Seq<Seq<char>>)
    requires
        cs.len() >= 1,
        forall|k: int| 0 <= k < cs.len() ==> no_sep(#[trigger] cs[k]),
    ensures
        split_path(join_path(cs)) == cs,
    decreases cs.len(),
{
    if cs.len() == 1 {
        lemma_split_path_no_sep_whole(cs[0]);
        assert(seq![cs[0]] =~= cs);
    } else {
        let rest = cs.drop_first();
        assert forall|k: int| 0 <= k < rest.len() implies no_sep(#[trigger] rest[k]) by {
            assert(rest[k] == cs[k + 1]);
        }
        lemma_split_join(rest);
        lemma_split_path_prepend(cs[0], join_path(rest));
        assert(seq![cs[0]] + rest =~= cs);
    }
}

/// Descending from the root through non-empty names gives the names joined with `/`;
/// from a non-empty path, that path, a `/`, and the names joined.
pub proof fn lemma_extend_path(parent: Seq<char>, cs: Seq<Seq<char>>)
    requires
        cs.len() >= 1,
        forall|k: int| 0 <= k < cs.len() ==> (#[trigger] cs[k]).len() > 0,
    ensures
        parent.len() == 0 ==> extend_path(parent, cs) == join_path(cs),
        parent.len() > 0 ==> extend_path(parent, cs) == parent + seq!['/'] + join_path(cs),
    decreases cs.len(),
{
    let rest = cs.drop_first();
    let next = child_path(parent, cs[0]);
    assert(extend_path(parent, cs) == extend_path(next, rest));
    if cs.len() == 1 {
        assert(extend_path(next, rest) == next);
    } else {
        assert forall|k: int| 0 <= k < rest.len() implies (#[trigger] rest[k]).len() > 0 by {
            assert(rest[k] == cs[k + 1]);
        }
        assert(cs[0].len() > 0);
        lemma_extend_path(next, rest);
        if parent.len() > 0 {
            assert(next + seq!['/'] + join_path(rest) =~= parent + seq!['/'] + (cs[0] + seq!['/']
                + join_path(rest)));
        }
    }
}

/// Hexadecimal digits are never a separator.
pub proof fn lemma_hex_digits_no_sep(n: nat)
    ensures
        no_sep(hex_digits(n)),
        hex_digits(n).len() >= 1,
    decreases n,
{
    if n >= 16 {
        lemma_hex_digits_no_sep(n / 16);
        let p = hex_digits(n / 16);
        let s = p.push(hex_digit(n % 16));
        assert forall|i: int| 0 <= i < s.len() implies !is_sep(#[trigger] s[i]) by {
            if i < p.len() {
                assert(s[i] == p[i]);
            }
        }
    }
}

/// The lowercase hexadecimal digit for `d`, as a one-character string.
fn hex_digit_str(d: u64) -> (r: &'static str)
    requires
        d < 16,
    ensures
        r@ == seq![hex_digit(d as nat)],
{
    proof {
        reveal_strlit("0");
        reveal_strlit("1");
        reveal_strlit("2");
        reveal_strlit("3");
        reveal_strlit("4");
        reveal_strlit("5");
        reveal_strlit("6");
        reveal_strlit("7");
        reveal_strlit("8");
        reveal_strlit("9");
        reveal_strlit("a");
        reveal_strlit("b");
        reveal_strlit("c");
        reveal_strlit("d");
        reveal_strlit("e");
        reveal_strlit("f");
    }
    match d {
        0 => "0",
        1 => "1",
        2 => "2",
        3 => "3",
        4 => "4",
        5 => "5",
        6 => "6",
        7 => "7",
        8 => "8",
        9 => "9",
        10 => "a",
        11 => "b",
        12 => "c",
        13 => "d",
        14 => "e",
        _ => "f",
    }
}

/// Appends the lowercase hexadecimal digits of `n` to `s`.
fn push_hex_digits(s: &mut String, n: u64)
    ensures
        final(s)@ == old(s)@ + hex_digits(n as nat),
    decreases n,
{
    if n < 16 {
        s.append(hex_digit_str(n));
    } else {
        push_hex_digits(s, n / 16);
        s.append(hex_digit_str(n % 16));
        assert(hex_digits(n as nat) == hex_digits((n / 16) as nat).push(hex_digit((n % 16) as nat)));
    }
}

/// `n` written as `0x` and its lowercase hexadecimal digits, without leading zeros.
pub fn hex_literal(n: u64) -> (r: String)
    ensures
        r@ == hex_literal_of(n),
{
    let mut s = String::from_str("0x");
    proof {
        reveal_strlit("0x");
    }
    push_hex_digits(&mut s, n);
    s
}

/// Joining one more component adds a `/` and that component.
pub proof fn lemma_join_push(cs: Seq<Seq<char>>, c: Seq<char>)
    requires
        cs.len() >= 1,
    ensures
        join_path(cs.push(c)) == join_path(cs) + seq!['/'] + c,
    decreases cs.len(),
{
    let t = cs.push(c);
    assert(t[0] == cs[0]);
    if cs.len() == 1 {
        assert(t.drop_first() =~= seq![c]);
        assert(join_path(seq![c]) == c);
        assert(join_path(t) == t[0] + seq!['/'] + join_path(t.drop_first()));
    } else {
        assert(t.drop_first() =~= cs.drop_first().push(c));
        lemma_join_push(cs.drop_first(), c);
        assert(cs[0] + seq!['/'] + (join_path(cs.drop_first()) + seq!['/'] + c) =~= (cs[0]
            + seq!['/'] + join_path(cs.drop_first())) + seq!['/'] + c);
        assert(join_path(t) == t[0] + seq!['/'] + join_path(t.drop_first()));
    }
}

/// Extending the last component by `x` extends the joined path by `x`.
pub proof fn lemma_join_extend_last(cs: Seq<Seq<char>>, x: char)
    requires
        cs.len() >= 1,
    ensures
        join_path(cs.update(cs.len() - 1, cs.last().push(x))) == join_path(cs).push(x),
    decreases cs.len(),
{
    let t = cs.update(cs.len() - 1, cs.last().push(x));
    if cs.len() == 1 {
    } else {
        assert(t[0] == cs[0]);
        let d = cs.drop_first();
        assert(t.drop_first() =~= d.update(d.len() - 1, d.last().push(x)));
        lemma_join_extend_last(d, x);
        assert(cs[0] + seq!['/'] + join_path(d).push(x) =~= (cs[0] + seq!['/'] + join_path(d)).push(x));
    }
}

/// Splitting on `/` and joining again gives the path back.
pub proof fn lemma_join_split(s: Seq<char>)
    ensures
        join_path(split_path(s)) == s,
    decreases s.len(),
{
    if s.len() == 0 {
        assert(join_path(seq![Seq::<char>::empty()]) == Seq::<char>::empty());
    } else {
        let b = s.drop_last();
        lemma_join_split(b);
        lemma_split_path_len(b);
        let parts = split_path(b);
        if is_sep(s.last()) {
            lemma_join_push(parts, Seq::<char>::empty());
            assert(b + seq!['/'] + Seq::<char>::empty() =~= s);
        } else {
            lemma_join_extend_last(parts, s.last());
            assert(b.push(s.last()) =~= s);
        }
    }
}

} // verus!
