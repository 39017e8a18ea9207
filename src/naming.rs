//! Path names: dotted joins of field names and decimal indices.

use vstd::prelude::*;
use vstd::string::StringExecFns;

verus! {

/// The character of a decimal digit.
pub open spec fn digit_of(d: nat) -> char {
    seq!['0', '1', '2', '3', '4', '5', '6', '7', '8', '9'][d as int]
}

/// The decimal rendering of a natural number, most significant digit first.
pub open spec fn decimal(n: nat) -> Seq<char>
    decreases n,
{
    if n < 10 {
        seq![digit_of(n)]
    } else {
        decimal(n / 10).push(digit_of(n % 10))
    }
}

/// The path of a component under `prefix`: `prefix.segment`.
pub open spec fn child_path(prefix: Seq<char>, segment: Seq<char>) -> Seq<char> {
    prefix + seq!['.'] + segment
}

/// Relies on `String::push`: appends one character.
#[verifier::external_body]
fn push_char(s: &mut String, c: char)
    ensures
        final(s)@ == old(s)@.push(c),
{
    s.push(c);
}

fn digit_char(d: usize) -> (c: char)
    requires
        d < 10,
    ensures
        c == digit_of(d as nat),
{
    match d {
        0 => '0',
        1 => '1',
        2 => '2',
        3 => '3',
        4 => '4',
        5 => '5',
        6 => '6',
        7 => '7',
        8 => '8',
        _ => '9',
    }
}

fn write_decimal(n: usize, out: &mut String)
    ensures
        final(out)@ == old(out)@ + decimal(n as nat),
    decreases n,
{
    if n >= 10 {
        write_decimal(n / 10, out);
    }
    push_char(out, digit_char(n % 10));
    assert(out@ =~= old(out)@ + decimal(n as nat));
}

/// The decimal rendering of `n`.
pub fn index_name(n: usize) -> (r: String)
    ensures
        r@ == decimal(n as nat),
{
    let mut s = String::new();
    write_decimal(n, &mut s);
    assert(s@ =~= decimal(n as nat));
    s
}

/// The path `prefix.segment`.
pub fn join(prefix: &str, segment: &str) -> (r: String)
    ensures
        r@ == child_path(prefix@, segment@),
{
    let mut s = prefix.to_owned();
    push_char(&mut s, '.');
    s.append(segment);
    s
}

/// No character of `s` is a dot.
pub open spec fn dot_free(s: Seq<char>) -> bool {
    forall|i: int| 0 <= i < s.len() ==> s[i] != '.'
}

/// `x` is the path `p` or a path below it.
pub open spec fn under(x: Seq<char>, p: Seq<char>) -> bool {
    x == p || (x.len() > p.len() && x.subrange(0, p.len() as int) == p && x[p.len() as int] == '.')
}

proof fn lemma_digit_of(d: nat)
    requires
        d < 10,
    ensures
        digit_of(d) != '.',
        forall|e: nat| e < 10 && digit_of(e) == digit_of(d) ==> e == d,
{
}

/// A decimal rendering is not empty and holds no dot.
pub proof fn lemma_decimal_dot_free(n: nat)
    ensures
        dot_free(decimal(n)),
        decimal(n).len() >= 1,
    decreases n,
{
    lemma_digit_of(n % 10);
    if n >= 10 {
        lemma_decimal_dot_free(n / 10);
    }
}

/// Different numbers have different decimal renderings.
pub proof fn lemma_decimal_injective(n: nat, m: nat)
    requires
        decimal(n) == decimal(m),
    ensures
        n == m,
    decreases n,
{
    lemma_digit_of(n % 10);
    lemma_digit_of(m % 10);
    assert(decimal(n).last() == digit_of(n % 10));
    assert(decimal(m).last() == digit_of(m % 10));
    if n >= 10 {
        lemma_decimal_dot_free(n / 10);
    }
    if m >= 10 {
        lemma_decimal_dot_free(m / 10);
    }
    if n >= 10 && m >= 10 {
        assert(decimal(n / 10) == decimal(n).drop_last());
        assert(decimal(m / 10) == decimal(m).drop_last());
        lemma_decimal_injective(n / 10, m / 10);
    }
}

proof fn lemma_under_index(x: Seq<char>, p: Seq<char>, k: int)
    requires
        under(x, p),
        0 <= k < p.len(),
    ensures
        x[k] == p[k],
{
    if x != p {
        assert(x.subrange(0, p.len() as int)[k] == x[k]);
    }
}

/// A path below `q + a` differs from one below `q + b` when `a` and `b`
/// are different segments without dots.
pub proof fn lemma_paths_differ(q: Seq<char>, a: Seq<char>, b: Seq<char>, x: Seq<char>, y: Seq<char>)
    requires
        dot_free(a),
        dot_free(b),
        a != b,
        under(x, q + a),
        under(y, q + b),
    ensures
        x != y,
{
    if x == y {
        let qa = q + a;
        let qb = q + b;
        if a.len() < b.len() {
            let k = qa.len() as int;
            lemma_under_index(y, qb, k);
            assert(qb[k] == b[a.len() as int]);
            if x == qa {
                assert(false);
            } else {
                assert(x[k] == '.');
            }
        } else if b.len() < a.len() {
            let k = qb.len() as int;
            lemma_under_index(x, qa, k);
            assert(qa[k] == a[b.len() as int]);
            if y == qb {
                assert(false);
            } else {
                assert(y[k] == '.');
            }
        } else {
            assert forall|i: int| 0 <= i < a.len() implies a[i] == b[i] by {
                lemma_under_index(x, qa, q.len() + i);
                lemma_under_index(y, qb, q.len() + i);
                assert(qa[q.len() + i] == a[i]);
                assert(qb[q.len() + i] == b[i]);
            }
            assert(a =~= b);
        }
    }
}

/// A path below `p.s` is below `p`.
pub proof fn lemma_under_child(x: Seq<char>, p: Seq<char>, s: Seq<char>)
    requires
        under(x, child_path(p, s)),
    ensures
        under(x, p),
{
    let c = child_path(p, s);
    assert(c[p.len() as int] == '.');
    assert(x.subrange(0, p.len() as int) =~= c.subrange(0, p.len() as int));
    assert(c.subrange(0, p.len() as int) =~= p);
}

/// Lying below is transitive.
pub proof fn lemma_under_trans(x: Seq<char>, y: Seq<char>, z: Seq<char>)
    requires
        under(x, y),
        under(y, z),
    ensures
        under(x, z),
{
    if x != y && y != z {
        assert(x.subrange(0, z.len() as int) =~= y.subrange(0, z.len() as int)) by {
            assert forall|i: int| 0 <= i < z.len() implies x[i] == y[i] by {
                assert(x.subrange(0, y.len() as int)[i] == x[i]);
            }
        }
        assert(x[z.len() as int] == y[z.len() as int]) by {
            assert(x.subrange(0, y.len() as int)[z.len() as int] == x[z.len() as int]);
        }
    }
}

/// A path below one segment without dots is not below another such
/// segment: paths registered under one variant's name never fall under the
/// name of another variant.
pub proof fn law_segments_apart(x: Seq<char>, v: Seq<char>, w: Seq<char>)
    requires
        dot_free(v),
        dot_free(w),
        v != w,
        under(x, w),
    ensures
        !under(x, v),
{
    let q = Seq::<char>::empty();
    assert(q + w =~= w);
    assert(q + v =~= v);
    if under(x, v) {
        lemma_paths_differ(q, w, v, x, x);
    }
}

} // verus!
