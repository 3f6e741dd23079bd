//! Key ordering and exact duplication: what the containers ask of a key
//! or value type.
use vstd::prelude::*;

verus! {

/// A total order on keys. `le` must be total and transitive; two keys
/// may tie without being spec-equal (two strings with the same
/// characters), and the containers treat tied keys as the same key.
pub trait TotalOrder: Sized {
    /// The order itself.
    spec fn le(self, other: Self) -> bool;

    /// Any two keys compare one way or the other.
    proof fn le_total(a: Self, b: Self)
        ensures
            a.le(b) || b.le(a),
    ;

    /// The order chains.
    proof fn le_trans(a: Self, b: Self, c: Self)
        requires
            a.le(b),
            b.le(c),
        ensures
            a.le(c),
    ;

    /// Strictly-below test, the one comparison the containers make.
    fn lt(&self, other: &Self) -> (r: bool)
        ensures
            r == (self.le(*other) && !other.le(*self)),
    ;
}

/// Keys tie when neither is below the other.
pub open spec fn eqv<K: TotalOrder>(a: K, b: K) -> bool {
    a.le(b) && b.le(a)
}

/// Exact duplication: the copy equals the original. The containers use
/// it where an entry is handed out while the tree keeps its own.
pub trait Dup: Sized {
    /// Duplicates the value.
    fn dup(&self) -> (r: Self)
        ensures
            r == *self,
    ;
}

impl TotalOrder for i32 {
    open spec fn le(self, other: Self) -> bool {
        self <= other
    }

    proof fn le_total(a: Self, b: Self) {
    }

    proof fn le_trans(a: Self, b: Self, c: Self) {
    }

    fn lt(&self, other: &Self) -> (r: bool) {
        *self < *other
    }
}

impl Dup for i32 {
    fn dup(&self) -> (r: Self) {
        *self
    }
}

impl TotalOrder for i64 {
    open spec fn le(self, other: Self) -> bool {
        self <= other
    }

    proof fn le_total(a: Self, b: Self) {
    }

    proof fn le_trans(a: Self, b: Self, c: Self) {
    }

    fn lt(&self, other: &Self) -> (r: bool) {
        *self < *other
    }
}

impl Dup for i64 {
    fn dup(&self) -> (r: Self) {
        *self
    }
}

impl TotalOrder for usize {
    open spec fn le(self, other: Self) -> bool {
        self <= other
    }

    proof fn le_total(a: Self, b: Self) {
    }

    proof fn le_trans(a: Self, b: Self, c: Self) {
    }

    fn lt(&self, other: &Self) -> (r: bool) {
        *self < *other
    }
}

impl Dup for usize {
    fn dup(&self) -> (r: Self) {
        *self
    }
}

/// Character-by-character order on character sequences: the shorter of
/// an agreeing pair comes first.
pub open spec fn lex_le(a: Seq<char>, b: Seq<char>) -> bool
    decreases a.len(),
{
    if a.len() == 0 {
        true
    } else if b.len() == 0 {
        false
    } else if a[0] != b[0] {
        a[0] < b[0]
    } else {
        lex_le(a.drop_first(), b.drop_first())
    }
}

/// Any two character sequences compare one way or the other.
pub proof fn lex_le_total(a: Seq<char>, b: Seq<char>)
    ensures
        lex_le(a, b) || lex_le(b, a),
    decreases a.len(),
{
    if a.len() == 0 {
        assert(lex_le(a, b));
    } else if b.len() == 0 {
        assert(lex_le(b, a));
    } else if a[0] == b[0] {
        lex_le_total(a.drop_first(), b.drop_first());
        assert(lex_le(a, b) == lex_le(a.drop_first(), b.drop_first()));
        assert(lex_le(b, a) == lex_le(b.drop_first(), a.drop_first()));
    } else {
        assert(a[0] < b[0] || b[0] < a[0]);
    }
}

/// The character order chains.
pub proof fn lex_le_trans(a: Seq<char>, b: Seq<char>, c: Seq<char>)
    requires
        lex_le(a, b),
        lex_le(b, c),
    ensures
        lex_le(a, c),
    decreases a.len(),
{
    if a.len() > 0 && b.len() > 0 && c.len() > 0 && a[0] == b[0] && b[0] == c[0] {
        lex_le_trans(a.drop_first(), b.drop_first(), c.drop_first());
    }
}

/// Two character sequences at or below each other are the same
/// sequence.
pub proof fn lex_le_antisym(a: Seq<char>, b: Seq<char>)
    requires
        lex_le(a, b),
        lex_le(b, a),
    ensures
        a == b,
    decreases a.len(),
{
    if a.len() > 0 && b.len() > 0 && a[0] == b[0] {
        lex_le_antisym(a.drop_first(), b.drop_first());
        assert(a =~= seq![a[0]] + a.drop_first());
        assert(b =~= seq![b[0]] + b.drop_first());
    } else {
        assert(a.len() == 0 || b.len() == 0 || a[0] != b[0]);
        if a.len() == 0 {
            assert(b.len() == 0);
            assert(a =~= b);
        }
    }
}

/// Dropping an agreeing prefix does not change how two sequences
/// compare.
proof fn lex_le_skip(a: Seq<char>, b: Seq<char>, i: int)
    requires
        0 <= i <= a.len(),
        i <= b.len(),
        forall|j: int| 0 <= j < i ==> a[j] == b[j],
    ensures
        lex_le(a, b) == lex_le(a.skip(i), b.skip(i)),
    decreases i,
{
    if i > 0 {
        assert(a.drop_first().skip(i - 1) =~= a.skip(i));
        assert(b.drop_first().skip(i - 1) =~= b.skip(i));
        lex_le_skip(a.drop_first(), b.drop_first(), i - 1);
    } else {
        assert(a.skip(0) =~= a);
        assert(b.skip(0) =~= b);
    }
}

/// Strictly-below test on string slices, matching `lex_le` on the
/// character sequences.
fn str_lt(a: &str, b: &str) -> (r: bool)
    ensures
        r == (lex_le(a@, b@) && !lex_le(b@, a@)),
{
    let an = a.unicode_len();
    let bn = b.unicode_len();
    let mut i: usize = 0;
    while i != an && i != bn
        invariant
            i <= an,
            i <= bn,
            an == a@.len(),
            bn == b@.len(),
            forall|j: int| 0 <= j < i ==> a@[j] == b@[j],
        decreases an - i,
    {
        let ca = a.get_char(i);
        let cb = b.get_char(i);
        if ca == cb {
            i += 1;
        } else {
            proof {
                lex_le_skip(a@, b@, i as int);
                lex_le_skip(b@, a@, i as int);
                let sa = a@.skip(i as int);
                let sb = b@.skip(i as int);
                assert(sa.len() == an - i && sb.len() == bn - i);
                assert(sa[0] == a@[i as int] && sb[0] == b@[i as int]);
                assert(lex_le(sa, sb) == (ca < cb));
                assert(lex_le(sb, sa) == (cb < ca));
            }
            return ca < cb;
        }
    }
    proof {
        lex_le_skip(a@, b@, i as int);
        lex_le_skip(b@, a@, i as int);
        let sa = a@.skip(i as int);
        let sb = b@.skip(i as int);
        assert(sa.len() == an - i && sb.len() == bn - i);
        assert(lex_le(sa, sb) == (an <= bn));
        assert(lex_le(sb, sa) == (bn <= an));
    }
    an < bn
}

impl TotalOrder for String {
    open spec fn le(self, other: Self) -> bool {
        lex_le(self@, other@)
    }

    proof fn le_total(a: Self, b: Self) {
        lex_le_total(a@, b@);
    }

    proof fn le_trans(a: Self, b: Self, c: Self) {
        lex_le_trans(a@, b@, c@);
    }

    fn lt(&self, other: &Self) -> (r: bool) {
        str_lt(self.as_str(), other.as_str())
    }
}

impl Dup for String {
    fn dup(&self) -> (r: Self) {
        self.clone()
    }
}

impl<'a> TotalOrder for &'a str {
    open spec fn le(self, other: Self) -> bool {
        lex_le(self@, other@)
    }

    proof fn le_total(a: Self, b: Self) {
        lex_le_total(a@, b@);
    }

    proof fn le_trans(a: Self, b: Self, c: Self) {
        lex_le_trans(a@, b@, c@);
    }

    fn lt(&self, other: &Self) -> (r: bool) {
        str_lt(self, other)
    }
}

impl<'a> Dup for &'a str {
    fn dup(&self) -> (r: Self) {
        self
    }
}

} // verus!
