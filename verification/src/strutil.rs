//! Verified helpers for the protocol's header lines: splitting a line into
//! space-separated tokens, joining tokens back into a line, comparing strings,
//! and formatting decimal indices.

use vstd::prelude::*;

verus! {

/// A token is representable in a header line only if it contains no space.
pub open spec fn no_space(s: Seq<char>) -> bool {
    forall|i: int| 0 <= i < s.len() ==> s[i] != ' '
}

/// Split a line at every space. The result always has at least one element;
/// consecutive spaces yield empty tokens, as the wire protocol has no escaping.
pub open spec fn split_spaces(s: Seq<char>) -> Seq<Seq<char>>
    decreases s.len(),
{
    if s.len() == 0 {
        seq![Seq::<char>::empty()]
    } else if s[0] == ' ' {
        seq![Seq::<char>::empty()] + split_spaces(s.skip(1))
    } else {
        let rest = split_spaces(s.skip(1));
        seq![seq![s[0]] + rest[0]] + rest.skip(1)
    }
}

/// Join arguments onto a header line: each is preceded by a single space.
pub open spec fn join_args(args: Seq<Seq<char>>) -> Seq<char>
    decreases args.len(),
{
    if args.len() == 0 {
        Seq::empty()
    } else {
        seq![' '] + args[0] + join_args(args.skip(1))
    }
}

/// The header line for a stanza: the type tag followed by the arguments.
pub open spec fn header_of(t: Seq<char>, args: Seq<Seq<char>>) -> Seq<char> {
    t + join_args(args)
}

pub proof fn lemma_split_len(s: Seq<char>)
    ensures
        split_spaces(s).len() >= 1,
    decreases s.len(),
{
    if s.len() == 0 {
    } else {
        lemma_split_len(s.skip(1));
    }
}

/// A line without spaces is a single token.
pub proof fn lemma_split_nospace(s: Seq<char>)
    requires
        no_space(s),
    ensures
        split_spaces(s) == seq![s],
    decreases s.len(),
{
    if s.len() == 0 {
        assert(split_spaces(s) =~~= seq![s]);
    } else {
        assert(no_space(s.skip(1)));
        lemma_split_nospace(s.skip(1));
        assert(seq![s[0]] + s.skip(1) =~= s);
        assert(split_spaces(s) =~~= seq![s]);
    }
}

/// Splitting takes off a space-free prefix up to the first space.
pub proof fn lemma_split_prefix(p: Seq<char>, y: Seq<char>)
    requires
        no_space(p),
    ensures
        split_spaces(p + seq![' '] + y) == seq![p] + split_spaces(y),
    decreases p.len(),
{
    let s = p + seq![' '] + y;
    lemma_split_len(y);
    if p.len() == 0 {
        assert(s =~= seq![' '] + y);
        assert(s[0] == ' ');
        assert(s.skip(1) =~= y);
        assert(split_spaces(s) =~~= seq![p] + split_spaces(y));
    } else {
        assert(no_space(p.skip(1)));
        lemma_split_prefix(p.skip(1), y);
        assert(s[0] == p[0]);
        assert(s[0] != ' ');
        assert(s.skip(1) =~= p.skip(1) + seq![' '] + y);
        let rest = split_spaces(s.skip(1));
        assert(rest == seq![p.skip(1)] + split_spaces(y));
        assert(rest[0] == p.skip(1));
        assert(seq![s[0]] + rest[0] =~= p);
        assert(rest.skip(1) =~~= split_spaces(y));
        assert(split_spaces(s) =~~= seq![p] + split_spaces(y));
    }
}

/// Splitting inverts joining when the type tag and every argument are
/// space-free: the wire protocol's representability condition.
pub proof fn lemma_split_join(t: Seq<char>, args: Seq<Seq<char>>)
    requires
        no_space(t),
        forall|i: int| 0 <= i < args.len() ==> no_space(#[trigger] args[i]),
    ensures
        split_spaces(header_of(t, args)) == seq![t] + args,
    decreases args.len(),
{
    if args.len() == 0 {
        assert(header_of(t, args) =~= t);
        lemma_split_nospace(t);
        assert(split_spaces(header_of(t, args)) =~~= seq![t] + args);
    } else {
        let tail = args[0] + join_args(args.skip(1));
        assert(args[0] == args.skip(0)[0]);
        assert(forall|i: int| 0 <= i < args.skip(1).len() ==> no_space(#[trigger] args.skip(1)[i]));
        lemma_split_join(args[0], args.skip(1));
        assert(header_of(args[0], args.skip(1)) == tail);
        lemma_split_prefix(t, tail);
        assert(header_of(t, args) =~= t + seq![' '] + tail);
        assert(split_spaces(header_of(t, args)) == seq![t] + split_spaces(tail));
        assert(split_spaces(tail) == seq![args[0]] + args.skip(1));
        assert(seq![t] + (seq![args[0]] + args.skip(1)) =~~= seq![t] + args);
    }
}

/// String equality, decided character by character.
pub fn str_eq(a: &str, b: &str) -> (r: bool)
    ensures
        r == (a@ == b@),
{
    let alen = a.unicode_len();
    let blen = b.unicode_len();
    if alen != blen {
        proof {
            if a@ == b@ {
                assert(a@.len() == b@.len());
            }
        }
        return false;
    }
    let mut i: usize = 0;
    while i < alen
        invariant
            i <= alen,
            alen == a@.len(),
            alen == b@.len(),
            forall|k: int| 0 <= k < i ==> a@[k] == b@[k],
        decreases alen - i,
    {
        if a.get_char(i) != b.get_char(i) {
            proof {
                if a@ == b@ {
                    assert(a@[i as int] == b@[i as int]);
                }
            }
            return false;
        }
        i += 1;
    }
    proof {
        assert(a@ =~= b@);
    }
    true
}

/// Split a header line into its space-separated tokens.
pub fn split_header(s: &str) -> (r: Vec<String>)
    ensures
        r.deep_view() == split_spaces(s@),
{
    let n = s.unicode_len();
    let mut parts: Vec<String> = Vec::new();
    let mut start: usize = 0;
    let mut i: usize = 0;
    proof {
        assert(s@.skip(0) =~= s@);
        assert(parts.deep_view() =~~= Seq::<Seq<char>>::empty());
        assert(parts.deep_view() + split_spaces(s@) =~~= split_spaces(s@));
    }
    while i < n
        invariant
            start <= i <= n,
            n == s@.len(),
            no_space(s@.subrange(start as int, i as int)),
            split_spaces(s@) == parts.deep_view() + split_spaces(s@.skip(start as int)),
        decreases n - i,
    {
        if s.get_char(i) == ' ' {
            let ghost pd = parts.deep_view();
            let tok = s.substring_char(start, i).to_owned();
            parts.push(tok);
            proof {
                let p = s@.subrange(start as int, i as int);
                let y = s@.skip(i as int + 1);
                lemma_split_prefix(p, y);
                assert(s@.skip(start as int) =~= p + seq![' '] + y);
                assert(parts.deep_view() =~~= pd.push(p));
                assert(split_spaces(s@) =~~= parts.deep_view() + split_spaces(y));
            }
            start = i + 1;
        } else {
            proof {
                assert(s@.subrange(start as int, i as int + 1) =~= s@.subrange(
                    start as int,
                    i as int,
                ).push(s@[i as int]));
            }
        }
        i += 1;
    }
    let ghost pd = parts.deep_view();
    let tok = s.substring_char(start, n).to_owned();
    parts.push(tok);
    proof {
        let p = s@.subrange(start as int, n as int);
        assert(s@.skip(start as int) =~= p);
        lemma_split_nospace(p);
        assert(parts.deep_view() =~~= pd.push(p));
        assert(split_spaces(s@) =~~= parts.deep_view());
    }
    parts
}

/// Join a type tag and arguments into one header line.
pub fn join_header(type_str: &str, args: &Vec<String>) -> (r: String)
    ensures
        r@ == header_of(type_str@, args.deep_view()),
{
    let mut out = type_str.to_owned();
    let mut i: usize = 0;
    proof {
        assert(args.deep_view().skip(0) =~= args.deep_view());
    }
    while i < args.len()
        invariant
            i <= args.len(),
            out@ + join_args(args.deep_view().skip(i as int)) == header_of(
                type_str@,
                args.deep_view(),
            ),
        decreases args.len() - i,
    {
        let ghost o0 = out@;
        out.append(" ");
        out.append((&args[i]).as_str());
        proof {
            reveal_strlit(" ");
            let d = args.deep_view();
            assert(d.skip(i as int)[0] == d[i as int]);
            assert(d.skip(i as int).skip(1) =~= d.skip(i as int + 1));
            assert(join_args(d.skip(i as int)) == seq![' '] + d[i as int] + join_args(
                d.skip(i as int + 1),
            ));
            assert(" "@ =~= seq![' ']);
            assert(out@ =~= o0 + seq![' '] + d[i as int]);
            assert(out@ + join_args(d.skip(i as int + 1)) =~= o0 + join_args(d.skip(i as int)));
        }
        i += 1;
    }
    proof {
        assert(join_args(args.deep_view().skip(args.len() as int)) =~= Seq::<char>::empty());
        assert(out@ =~= header_of(type_str@, args.deep_view()));
    }
    out
}

/// The character for one decimal digit.
pub open spec fn digit_char(d: nat) -> char {
    if d == 0 {
        '0'
    } else if d == 1 {
        '1'
    } else if d == 2 {
        '2'
    } else if d == 3 {
        '3'
    } else if d == 4 {
        '4'
    } else if d == 5 {
        '5'
    } else if d == 6 {
        '6'
    } else if d == 7 {
        '7'
    } else if d == 8 {
        '8'
    } else {
        '9'
    }
}

/// The decimal representation of a number, most significant digit first.
pub open spec fn dec_of(n: nat) -> Seq<char>
    decreases n,
{
    if n < 10 {
        seq![digit_char(n)]
    } else {
        dec_of(n / 10) + seq![digit_char(n % 10)]
    }
}

fn digit_str(d: u64) -> (r: &'static str)
    requires
        d < 10,
    ensures
        r@ == seq![digit_char(d as nat)],
{
    proof {
        reveal_strlit("0");
        reveal_strlit("1");
        reveal_strlit("2");
        reveal_strlit("3");
        reveal_strlit("4");
        reveal_strlit("5");
        reveal_strlit("6");
        reveal_strlit("7");
        reveal_strlit("8");
        reveal_strlit("9");
    }
    let r = if d == 0 {
        "0"
    } else if d == 1 {
        "1"
    } else if d == 2 {
        "2"
    } else if d == 3 {
        "3"
    } else if d == 4 {
        "4"
    } else if d == 5 {
        "5"
    } else if d == 6 {
        "6"
    } else if d == 7 {
        "7"
    } else if d == 8 {
        "8"
    } else {
        "9"
    };
    proof {
        assert(r@ =~= seq![digit_char(d as nat)]);
    }
    r
}

/// Format a number in decimal.
pub fn dec_str(n: u64) -> (r: String)
    ensures
        r@ == dec_of(n as nat),
    decreases n,
{
    if n < 10 {
        digit_str(n).to_owned()
    } else {
        let mut s = dec_str(n / 10);
        s.append(digit_str(n % 10));
        proof {
            assert(s@ =~= dec_of(n as nat));
        }
        s
    }
}

} // verus!
