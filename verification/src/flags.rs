use vstd::prelude::*;

use crate::index::{BlockIndex, ColumnIndex, DigitIndex, RowIndex, SudokuIndex};

verus! {

/// Whether bit `i` of `v` is set.
pub open spec fn bit_of(v: u16, i: int) -> bool {
    (v >> (i as u16)) & 1u16 == 1u16
}

/// The numbers `0 <= i < n` whose bit is set in `v`.
pub open spec fn bits_below(v: u16, n: int) -> Set<int> {
    Set::new(|i: int| 0 <= i < n && bit_of(v, i))
}

/// The members of `0..9` whose bit is set in `v`.
pub open spec fn bits_set(v: u16) -> Set<int> {
    bits_below(v, 9)
}

/// All nine members `0..9`.
pub open spec fn full_set() -> Set<int> {
    Set::new(|i: int| 0 <= i < 9)
}

/// How many of the bits `0..n` of `v` are set.
pub open spec fn count_below(v: u16, n: int) -> nat
    decreases n,
{
    if n <= 0 {
        0
    } else {
        count_below(v, n - 1) + if bit_of(v, n - 1) { 1nat } else { 0nat }
    }
}

/// The members of `s` below `n`, in increasing order.
pub open spec fn ascending(s: Set<int>, n: int) -> Seq<int>
    decreases n,
{
    if n <= 0 {
        Seq::empty()
    } else if s.contains(n - 1) {
        ascending(s, n - 1).push(n - 1)
    } else {
        ascending(s, n - 1)
    }
}

proof fn lemma_bit_ops(a: u16, b: u16, i: u16)
    by (bit_vector)
    requires
        i < 16,
    ensures
        ((a | b) >> i) & 1 == 1 <==> ((a >> i) & 1 == 1 || (b >> i) & 1 == 1),
        ((a & b) >> i) & 1 == 1 <==> ((a >> i) & 1 == 1 && (b >> i) & 1 == 1),
        ((!a & 511u16) >> i) & 1 == 1 <==> (i < 9 && !((a >> i) & 1 == 1)),
        (511u16 >> i) & 1 == 1 <==> i < 9,
        (0u16 >> i) & 1 != 1,
        a < 512 && b < 512 ==> (a | b) < 512 && (a & b) < 512,
        (!a & 511u16) < 512,
        (a & 511u16) < 512,
{
}

proof fn lemma_bit_single(j: u16, i: u16)
    by (bit_vector)
    requires
        j < 9,
        i < 16,
    ensures
        ((1u16 << j) >> i) & 1 == 1 <==> i == j,
        (1u16 << j) < 512,
        ((!(1u16 << j) & 511u16) >> i) & 1 == 1 <==> (i < 9 && i != j),
{
}

proof fn lemma_bits_ext_u16(a: u16, b: u16)
    by (bit_vector)
    requires
        a < 512,
        b < 512,
        (a >> 0u16) & 1 == (b >> 0u16) & 1,
        (a >> 1u16) & 1 == (b >> 1u16) & 1,
        (a >> 2u16) & 1 == (b >> 2u16) & 1,
        (a >> 3u16) & 1 == (b >> 3u16) & 1,
        (a >> 4u16) & 1 == (b >> 4u16) & 1,
        (a >> 5u16) & 1 == (b >> 5u16) & 1,
        (a >> 6u16) & 1 == (b >> 6u16) & 1,
        (a >> 7u16) & 1 == (b >> 7u16) & 1,
        (a >> 8u16) & 1 == (b >> 8u16) & 1,
    ensures
        a == b,
{
}

proof fn lemma_bit_is_01(a: u16, i: u16)
    by (bit_vector)
    ensures
        (a >> i) & 1 == 0 || (a >> i) & 1 == 1,
{
}

/// Set operations on the nine low bits follow the bitwise operators.
pub proof fn lemma_bits_set_ops(a: u16, b: u16)
    ensures
        bits_set(a | b) == bits_set(a).union(bits_set(b)),
        bits_set(a & b) == bits_set(a).intersect(bits_set(b)),
        bits_set(!a & 511u16) == full_set().difference(bits_set(a)),
        bits_set(a & 511u16) == bits_set(a),
        bits_set(511u16) == full_set(),
        bits_set(0u16) == Set::<int>::empty(),
        a < 512 && b < 512 ==> (a | b) < 512 && (a & b) < 512,
        (!a & 511u16) < 512,
        (a & 511u16) < 512,
        bits_set(a).subset_of(full_set()),
{
    lemma_bit_ops(a, b, 0);
    assert forall|i: int| bits_set(a | b).contains(i) <==> bits_set(a).union(bits_set(b)).contains(i) by {
        if 0 <= i < 9 { lemma_bit_ops(a, b, i as u16); }
    }
    assert forall|i: int| bits_set(a & b).contains(i) <==> bits_set(a).intersect(bits_set(b)).contains(i) by {
        if 0 <= i < 9 { lemma_bit_ops(a, b, i as u16); }
    }
    assert forall|i: int| bits_set(!a & 511u16).contains(i) <==> full_set().difference(bits_set(a)).contains(i) by {
        if 0 <= i < 9 { lemma_bit_ops(a, b, i as u16); }
    }
    assert forall|i: int| bits_set(a & 511u16).contains(i) <==> bits_set(a).contains(i) by {
        if 0 <= i < 9 { lemma_bit_ops(a, 511u16, i as u16); }
    }
    assert forall|i: int| bits_set(511u16).contains(i) <==> full_set().contains(i) by {
        if 0 <= i < 9 { lemma_bit_ops(a, b, i as u16); }
    }
    assert forall|i: int| !bits_set(0u16).contains(i) by {
        if 0 <= i < 9 { lemma_bit_ops(a, b, i as u16); }
    }
    assert(bits_set(a | b) =~= bits_set(a).union(bits_set(b)));
    assert(bits_set(a & b) =~= bits_set(a).intersect(bits_set(b)));
    assert(bits_set(!a & 511u16) =~= full_set().difference(bits_set(a)));
    assert(bits_set(a & 511u16) =~= bits_set(a));
    assert(bits_set(511u16) =~= full_set());
    assert(bits_set(0u16) =~= Set::<int>::empty());
}

/// The single bit `1 << j` and its complement within nine bits.
pub proof fn lemma_bits_set_single(j: u16)
    requires
        j < 9,
    ensures
        bits_set(1u16 << j) == Set::<int>::empty().insert(j as int),
        bits_set(!(1u16 << j) & 511u16) == full_set().remove(j as int),
        (1u16 << j) < 512,
        (!(1u16 << j) & 511u16) < 512,
{
    assert forall|i: int| bits_set(1u16 << j).contains(i) <==> Set::<int>::empty().insert(j as int).contains(i) by {
        if 0 <= i < 9 { lemma_bit_single(j, i as u16); }
    }
    assert forall|i: int| bits_set(!(1u16 << j) & 511u16).contains(i) <==> full_set().remove(j as int).contains(i) by {
        if 0 <= i < 9 { lemma_bit_single(j, i as u16); }
    }
    lemma_bit_single(j, 0);
    lemma_bit_ops(1u16 << j, 0, 0);
    assert(bits_set(1u16 << j) =~= Set::<int>::empty().insert(j as int));
    assert(bits_set(!(1u16 << j) & 511u16) =~= full_set().remove(j as int));
}

proof fn lemma_same_bit(a: u16, b: u16, k: u16)
    requires
        k < 9,
        bits_set(a) == bits_set(b),
    ensures
        (a >> k) & 1 == (b >> k) & 1,
{
    assert((k as int) as u16 == k);
    assert(bits_set(a).contains(k as int) == bits_set(b).contains(k as int));
    assert(bits_set(a).contains(k as int) == bit_of(a, k as int));
    assert(bit_of(a, k as int) == bit_of(b, k as int));
    assert(bit_of(a, k as int) == ((a >> k) & 1 == 1));
    assert(bit_of(b, k as int) == ((b >> k) & 1 == 1));
    lemma_bit_is_01(a, k);
    lemma_bit_is_01(b, k);
}

/// Two nine-bit values with the same members are equal.
pub proof fn lemma_bits_set_ext(a: u16, b: u16)
    requires
        a < 512,
        b < 512,
    ensures
        (bits_set(a) == bits_set(b)) <==> (a == b),
{
    if bits_set(a) == bits_set(b) {
        lemma_same_bit(a, b, 0);
        lemma_same_bit(a, b, 1);
        lemma_same_bit(a, b, 2);
        lemma_same_bit(a, b, 3);
        lemma_same_bit(a, b, 4);
        lemma_same_bit(a, b, 5);
        lemma_same_bit(a, b, 6);
        lemma_same_bit(a, b, 7);
        lemma_same_bit(a, b, 8);
        lemma_bits_ext_u16(a, b);
    }
}

/// The members below `n` are finite and as many as the bits counted.
pub proof fn lemma_count_below(v: u16, n: int)
    requires
        0 <= n,
    ensures
        bits_below(v, n).finite(),
        bits_below(v, n).len() == count_below(v, n),
    decreases n,
{
    if n == 0 {
        assert(bits_below(v, 0) =~= Set::<int>::empty());
    } else {
        lemma_count_below(v, n - 1);
        if bit_of(v, n - 1) {
            assert(bits_below(v, n) =~= bits_below(v, n - 1).insert(n - 1));
        } else {
            assert(bits_below(v, n) =~= bits_below(v, n - 1));
        }
    }
}

/// The members of `s` listed by `ascending` are exactly those below `n`, strictly increasing.
pub proof fn lemma_ascending(s: Set<int>, n: int)
    requires
        0 <= n,
    ensures
        forall|k: int| 0 <= k < ascending(s, n).len() ==> {
            &&& s.contains(#[trigger] ascending(s, n)[k])
            &&& 0 <= ascending(s, n)[k] < n
        },
        forall|x: int| 0 <= x < n && s.contains(x) ==> ascending(s, n).contains(x),
        forall|k: int, l: int| 0 <= k < l < ascending(s, n).len()
            ==> ascending(s, n)[k] < ascending(s, n)[l],
        ascending(s, n).len() <= n,
    decreases n,
{
    if n > 0 {
        lemma_ascending(s, n - 1);
        let p = ascending(s, n - 1);
        if s.contains(n - 1) {
            assert forall|x: int| 0 <= x < n && s.contains(x) implies ascending(s, n).contains(x) by {
                if x == n - 1 {
                    assert(ascending(s, n)[p.len() as int] == x);
                } else {
                    let k = choose|k: int| 0 <= k < p.len() && p[k] == x;
                    assert(ascending(s, n)[k] == x);
                }
            }
        }
    }
}

/// The members of a nine-bit set, listed in increasing order, cover the whole set.
pub proof fn lemma_ascending_len(s: Set<int>)
    requires
        s.subset_of(full_set()),
    ensures
        s.finite(),
        ascending(s, 9).len() == s.len(),
        ascending(s, 9).to_set() == s,
        ascending(s, 9).no_duplicates(),
{
    lemma_ascending(s, 9);
    let a = ascending(s, 9);
    assert(a.to_set() =~= s) by {
        assert forall|x: int| a.to_set().contains(x) implies s.contains(x) by {
            let k = choose|k: int| 0 <= k < a.len() && a[k] == x;
        }
    }
    assert(a.no_duplicates()) by {
        assert forall|k: int, l: int| 0 <= k < a.len() && 0 <= l < a.len() && k != l implies a[k] != a[l] by {
            if k < l {
            } else {
            }
        }
    }
    a.unique_seq_to_set();
}

/// A set of `DigitIndex` values, one bit per value.
#[derive(Clone, Copy, Debug, Hash)]
pub struct DigitFlags(u16);

impl DigitFlags {
    #[verifier::type_invariant]
    spec fn inv(self) -> bool {
        self.0 < 512
    }

    /// The members of the set.
    pub closed spec fn view(self) -> Set<int> {
        bits_set(self.0)
    }

    /// The set holds only values of `0..9`, and finitely many.
    pub proof fn lemma_view(self)
        ensures
            self@.subset_of(full_set()),
            self@.finite(),
            self@.len() <= 9,
    {
        lemma_bits_set_ops(self.0, 0);
        vstd::set_lib::lemma_int_range(0, 9);
        assert(full_set() =~= vstd::set_lib::set_int_range(0, 9));
        vstd::set_lib::lemma_len_subset(self@, full_set());
    }

    /// The empty set.
    pub fn zero() -> (r: Self)
        ensures
            r@ == Set::<int>::empty(),
    {
        proof {
            lemma_bits_set_ops(0, 0);
        }
        DigitFlags(0)
    }

    /// The set of all nine values.
    pub fn all() -> (r: Self)
        ensures
            r@ == full_set(),
    {
        proof {
            lemma_bits_set_ops(511, 0);
        }
        DigitFlags(511)
    }

    /// The set given by the nine low bits of `flags`; higher bits are dropped.
    pub fn new(flags: u16) -> (r: Self)
        ensures
            r@ == bits_set(flags),
    {
        proof {
            lemma_bits_set_ops(flags, 0);
        }
        DigitFlags(flags & 511)
    }

    /// The set that holds `idx` alone.
    pub fn only(idx: DigitIndex) -> (r: Self)
        ensures
            r@ == Set::<int>::empty().insert(idx@),
    {
        let v = idx.value();
        proof {
            lemma_bits_set_single(v as u16);
        }
        DigitFlags(1u16 << (v as u16))
    }

    /// The set of every value but `idx`.
    pub fn all_but(idx: DigitIndex) -> (r: Self)
        ensures
            r@ == full_set().remove(idx@),
    {
        let v = idx.value();
        proof {
            lemma_bits_set_single(v as u16);
        }
        DigitFlags(!(1u16 << (v as u16)) & 511)
    }

    /// The nine-bit pattern of the set: bit `i` is set when `i` is a member.
    pub fn bits(&self) -> (r: u16)
        ensures
            bits_set(r) == self@,
            r < 512,
    {
        proof {
            use_type_invariant(self);
        }
        self.0
    }

    /// Whether `idx` is a member.
    pub fn contains(&self, idx: DigitIndex) -> (r: bool)
        ensures
            r == self@.contains(idx@),
    {
        let v = idx.value();
        assert((v as u16) as int == idx@);
                (self.0 >> (v as u16)) & 1 == 1
    }

    /// Whether the set has a member.
    pub fn any(&self) -> (r: bool)
        ensures
            r == (self@ != Set::<int>::empty()),
    {
        proof {
            use_type_invariant(self);
            lemma_bits_set_ops(0, 0);
            lemma_bits_set_ext(self.0, 0);
        }
        self.0 != 0
    }

    /// How many members the set has.
    pub fn count(&self) -> (r: usize)
        ensures
            r == self@.len(),
            r <= 9,
    {
        let mut i: u16 = 0;
        let mut n: usize = 0;
        while i < 9
            invariant
                i <= 9,
                n == count_below(self.0, i as int),
                n <= i,
            decreases 9 - i,
        {
            if (self.0 >> i) & 1 == 1 {
                n = n + 1;
            }
            i = i + 1;
        }
        proof {
            lemma_count_below(self.0, 9);
        }
        n
    }

    /// The smallest member, if there is one.
    pub fn first(&self) -> (r: Option<DigitIndex>)
        ensures
            r is None <==> self@ == Set::<int>::empty(),
            r matches Some(i) ==> self@.contains(i@) && forall|j: int| 0 <= j < i@ ==> !self@.contains(j),
    {
        let mut i: u16 = 0;
        while i < 9
            invariant
                i <= 9,
                forall|j: int| 0 <= j < i ==> !self@.contains(j),
            decreases 9 - i,
        {
            if (self.0 >> i) & 1 == 1 {
                assert(self@.contains(i as int));
                return Some(DigitIndex::from_value(i as usize));
            }
            i = i + 1;
        }
        assert(self@ =~= Set::<int>::empty());
        None
    }

    /// The members, in increasing order.
    pub fn iter(&self) -> (r: Vec<DigitIndex>)
        ensures
            r@.map_values(|d: DigitIndex| d@) == ascending(self@, 9),
    {
        let mut r: Vec<DigitIndex> = Vec::new();
        let mut i: u16 = 0;
        while i < 9
            invariant
                i <= 9,
                r@.map_values(|d: DigitIndex| d@) == ascending(self@, i as int),
            decreases 9 - i,
        {
            if (self.0 >> i) & 1 == 1 {
                r.push(DigitIndex::from_value(i as usize));
            }
            assert(r@.map_values(|d: DigitIndex| d@) =~= ascending(self@, i + 1));
            i = i + 1;
        }
        r
    }

    /// The set with `idx` added.
    pub fn add(self, idx: DigitIndex) -> (r: Self)
        ensures
            r@ == self@.insert(idx@),
    {
        self.union(Self::only(idx))
    }

    /// The set with `idx` taken out.
    pub fn sub(self, idx: DigitIndex) -> (r: Self)
        ensures
            r@ == self@.remove(idx@),
    {
        let r = self.intersection(Self::all_but(idx));
        proof {
            self.lemma_view();
        }
        assert(r@ =~= self@.remove(idx@));
        r
    }

    /// The members of either set.
    pub fn union(self, other: Self) -> (r: Self)
        ensures
            r@ == self@.union(other@),
    {
        proof {
            use_type_invariant(&self);
            use_type_invariant(&other);
            lemma_bits_set_ops(self.0, other.0);
        }
        DigitFlags(self.0 | other.0)
    }

    /// The members of both sets.
    pub fn intersection(self, other: Self) -> (r: Self)
        ensures
            r@ == self@.intersect(other@),
    {
        proof {
            use_type_invariant(&self);
            use_type_invariant(&other);
            lemma_bits_set_ops(self.0, other.0);
        }
        DigitFlags(self.0 & other.0)
    }

    /// The values of `0..9` that are not members.
    pub fn complement(self) -> (r: Self)
        ensures
            r@ == full_set().difference(self@),
    {
        proof {
            lemma_bits_set_ops(self.0, 0);
        }
        DigitFlags(!self.0 & 511)
    }
}

impl PartialEq for DigitFlags {
    fn eq(&self, other: &Self) -> (r: bool) {
        proof {
            use_type_invariant(self);
            use_type_invariant(other);
            lemma_bits_set_ext(self.0, other.0);
        }
        self.0 == other.0
    }
}

impl vstd::std_specs::cmp::PartialEqSpecImpl for DigitFlags {
    open spec fn obeys_eq_spec() -> bool {
        true
    }

    open spec fn eq_spec(&self, other: &Self) -> bool {
        self@ == other@
    }
}

impl Eq for DigitFlags {
}

/// A set of `SudokuIndex` values, one bit per value.
#[derive(Clone, Copy, Debug, Hash)]
pub struct SudokuFlags(u16);

impl SudokuFlags {
    #[verifier::type_invariant]
    spec fn inv(self) -> bool {
        self.0 < 512
    }

    /// The members of the set.
    pub closed spec fn view(self) -> Set<int> {
        bits_set(self.0)
    }

    /// The set holds only values of `0..9`, and finitely many.
    pub proof fn lemma_view(self)
        ensures
            self@.subset_of(full_set()),
            self@.finite(),
            self@.len() <= 9,
    {
        lemma_bits_set_ops(self.0, 0);
        vstd::set_lib::lemma_int_range(0, 9);
        assert(full_set() =~= vstd::set_lib::set_int_range(0, 9));
        vstd::set_lib::lemma_len_subset(self@, full_set());
    }

    /// The empty set.
    pub fn zero() -> (r: Self)
        ensures
            r@ == Set::<int>::empty(),
    {
        proof {
            lemma_bits_set_ops(0, 0);
        }
        SudokuFlags(0)
    }

    /// The set of all nine values.
    pub fn all() -> (r: Self)
        ensures
            r@ == full_set(),
    {
        proof {
            lemma_bits_set_ops(511, 0);
        }
        SudokuFlags(511)
    }

    /// The set given by the nine low bits of `flags`; higher bits are dropped.
    pub fn new(flags: u16) -> (r: Self)
        ensures
            r@ == bits_set(flags),
    {
        proof {
            lemma_bits_set_ops(flags, 0);
        }
        SudokuFlags(flags & 511)
    }

    /// The set that holds `idx` alone.
    pub fn only(idx: SudokuIndex) -> (r: Self)
        ensures
            r@ == Set::<int>::empty().insert(idx@),
    {
        let v = idx.value();
        proof {
            lemma_bits_set_single(v as u16);
        }
        SudokuFlags(1u16 << (v as u16))
    }

    /// The set of every value but `idx`.
    pub fn all_but(idx: SudokuIndex) -> (r: Self)
        ensures
            r@ == full_set().remove(idx@),
    {
        let v = idx.value();
        proof {
            lemma_bits_set_single(v as u16);
        }
        SudokuFlags(!(1u16 << (v as u16)) & 511)
    }

    /// The nine-bit pattern of the set: bit `i` is set when `i` is a member.
    pub fn bits(&self) -> (r: u16)
        ensures
            bits_set(r) == self@,
            r < 512,
    {
        proof {
            use_type_invariant(self);
        }
        self.0
    }

    /// Whether `idx` is a member.
    pub fn contains(&self, idx: SudokuIndex) -> (r: bool)
        ensures
            r == self@.contains(idx@),
    {
        let v = idx.value();
        assert((v as u16) as int == idx@);
                (self.0 >> (v as u16)) & 1 == 1
    }

    /// Whether the set has a member.
    pub fn any(&self) -> (r: bool)
        ensures
            r == (self@ != Set::<int>::empty()),
    {
        proof {
            use_type_invariant(self);
            lemma_bits_set_ops(0, 0);
            lemma_bits_set_ext(self.0, 0);
        }
        self.0 != 0
    }

    /// How many members the set has.
    pub fn count(&self) -> (r: usize)
        ensures
            r == self@.len(),
            r <= 9,
    {
        let mut i: u16 = 0;
        let mut n: usize = 0;
        while i < 9
            invariant
                i <= 9,
                n == count_below(self.0, i as int),
                n <= i,
            decreases 9 - i,
        {
            if (self.0 >> i) & 1 == 1 {
                n = n + 1;
            }
            i = i + 1;
        }
        proof {
            lemma_count_below(self.0, 9);
        }
        n
    }

    /// The smallest member, if there is one.
    pub fn first(&self) -> (r: Option<SudokuIndex>)
        ensures
            r is None <==> self@ == Set::<int>::empty(),
            r matches Some(i) ==> self@.contains(i@) && forall|j: int| 0 <= j < i@ ==> !self@.contains(j),
    {
        let mut i: u16 = 0;
        while i < 9
            invariant
                i <= 9,
                forall|j: int| 0 <= j < i ==> !self@.contains(j),
            decreases 9 - i,
        {
            if (self.0 >> i) & 1 == 1 {
                assert(self@.contains(i as int));
                return Some(SudokuIndex::from_value(i as usize));
            }
            i = i + 1;
        }
        assert(self@ =~= Set::<int>::empty());
        None
    }

    /// The members, in increasing order.
    pub fn iter(&self) -> (r: Vec<SudokuIndex>)
        ensures
            r@.map_values(|d: SudokuIndex| d@) == ascending(self@, 9),
    {
        let mut r: Vec<SudokuIndex> = Vec::new();
        let mut i: u16 = 0;
        while i < 9
            invariant
                i <= 9,
                r@.map_values(|d: SudokuIndex| d@) == ascending(self@, i as int),
            decreases 9 - i,
        {
            if (self.0 >> i) & 1 == 1 {
                r.push(SudokuIndex::from_value(i as usize));
            }
            assert(r@.map_values(|d: SudokuIndex| d@) =~= ascending(self@, i + 1));
            i = i + 1;
        }
        r
    }

    /// The set with `idx` added.
    pub fn add(self, idx: SudokuIndex) -> (r: Self)
        ensures
            r@ == self@.insert(idx@),
    {
        self.union(Self::only(idx))
    }

    /// The set with `idx` taken out.
    pub fn sub(self, idx: SudokuIndex) -> (r: Self)
        ensures
            r@ == self@.remove(idx@),
    {
        let r = self.intersection(Self::all_but(idx));
        proof {
            self.lemma_view();
        }
        assert(r@ =~= self@.remove(idx@));
        r
    }

    /// The members of either set.
    pub fn union(self, other: Self) -> (r: Self)
        ensures
            r@ == self@.union(other@),
    {
        proof {
            use_type_invariant(&self);
            use_type_invariant(&other);
            lemma_bits_set_ops(self.0, other.0);
        }
        SudokuFlags(self.0 | other.0)
    }

    /// The members of both sets.
    pub fn intersection(self, other: Self) -> (r: Self)
        ensures
            r@ == self@.intersect(other@),
    {
        proof {
            use_type_invariant(&self);
            use_type_invariant(&other);
            lemma_bits_set_ops(self.0, other.0);
        }
        SudokuFlags(self.0 & other.0)
    }

    /// The values of `0..9` that are not members.
    pub fn complement(self) -> (r: Self)
        ensures
            r@ == full_set().difference(self@),
    {
        proof {
            lemma_bits_set_ops(self.0, 0);
        }
        SudokuFlags(!self.0 & 511)
    }
}

impl PartialEq for SudokuFlags {
    fn eq(&self, other: &Self) -> (r: bool) {
        proof {
            use_type_invariant(self);
            use_type_invariant(other);
            lemma_bits_set_ext(self.0, other.0);
        }
        self.0 == other.0
    }
}

impl vstd::std_specs::cmp::PartialEqSpecImpl for SudokuFlags {
    open spec fn obeys_eq_spec() -> bool {
        true
    }

    open spec fn eq_spec(&self, other: &Self) -> bool {
        self@ == other@
    }
}

impl Eq for SudokuFlags {
}

/// A set of `RowIndex` values, one bit per value.
#[derive(Clone, Copy, Debug, Hash)]
pub struct RowFlags(u16);

impl RowFlags {
    #[verifier::type_invariant]
    spec fn inv(self) -> bool {
        self.0 < 512
    }

    /// The members of the set.
    pub closed spec fn view(self) -> Set<int> {
        bits_set(self.0)
    }

    /// The set holds only values of `0..9`, and finitely many.
    pub proof fn lemma_view(self)
        ensures
            self@.subset_of(full_set()),
            self@.finite(),
            self@.len() <= 9,
    {
        lemma_bits_set_ops(self.0, 0);
        vstd::set_lib::lemma_int_range(0, 9);
        assert(full_set() =~= vstd::set_lib::set_int_range(0, 9));
        vstd::set_lib::lemma_len_subset(self@, full_set());
    }

    /// The empty set.
    pub fn zero() -> (r: Self)
        ensures
            r@ == Set::<int>::empty(),
    {
        proof {
            lemma_bits_set_ops(0, 0);
        }
        RowFlags(0)
    }

    /// The set of all nine values.
    pub fn all() -> (r: Self)
        ensures
            r@ == full_set(),
    {
        proof {
            lemma_bits_set_ops(511, 0);
        }
        RowFlags(511)
    }

    /// The set given by the nine low bits of `flags`; higher bits are dropped.
    pub fn new(flags: u16) -> (r: Self)
        ensures
            r@ == bits_set(flags),
    {
        proof {
            lemma_bits_set_ops(flags, 0);
        }
        RowFlags(flags & 511)
    }

    /// The set that holds `idx` alone.
    pub fn only(idx: RowIndex) -> (r: Self)
        ensures
            r@ == Set::<int>::empty().insert(idx@),
    {
        let v = idx.value();
        proof {
            lemma_bits_set_single(v as u16);
        }
        RowFlags(1u16 << (v as u16))
    }

    /// The set of every value but `idx`.
    pub fn all_but(idx: RowIndex) -> (r: Self)
        ensures
            r@ == full_set().remove(idx@),
    {
        let v = idx.value();
        proof {
            lemma_bits_set_single(v as u16);
        }
        RowFlags(!(1u16 << (v as u16)) & 511)
    }

    /// The nine-bit pattern of the set: bit `i` is set when `i` is a member.
    pub fn bits(&self) -> (r: u16)
        ensures
            bits_set(r) == self@,
            r < 512,
    {
        proof {
            use_type_invariant(self);
        }
        self.0
    }

    /// Whether `idx` is a member.
    pub fn contains(&self, idx: RowIndex) -> (r: bool)
        ensures
            r == self@.contains(idx@),
    {
        let v = idx.value();
        assert((v as u16) as int == idx@);
                (self.0 >> (v as u16)) & 1 == 1
    }

    /// Whether the set has a member.
    pub fn any(&self) -> (r: bool)
        ensures
            r == (self@ != Set::<int>::empty()),
    {
        proof {
            use_type_invariant(self);
            lemma_bits_set_ops(0, 0);
            lemma_bits_set_ext(self.0, 0);
        }
        self.0 != 0
    }

    /// How many members the set has.
    pub fn count(&self) -> (r: usize)
        ensures
            r == self@.len(),
            r <= 9,
    {
        let mut i: u16 = 0;
        let mut n: usize = 0;
        while i < 9
            invariant
                i <= 9,
                n == count_below(self.0, i as int),
                n <= i,
            decreases 9 - i,
        {
            if (self.0 >> i) & 1 == 1 {
                n = n + 1;
            }
            i = i + 1;
        }
        proof {
            lemma_count_below(self.0, 9);
        }
        n
    }

    /// The smallest member, if there is one.
    pub fn first(&self) -> (r: Option<RowIndex>)
        ensures
            r is None <==> self@ == Set::<int>::empty(),
            r matches Some(i) ==> self@.contains(i@) && forall|j: int| 0 <= j < i@ ==> !self@.contains(j),
    {
        let mut i: u16 = 0;
        while i < 9
            invariant
                i <= 9,
                forall|j: int| 0 <= j < i ==> !self@.contains(j),
            decreases 9 - i,
        {
            if (self.0 >> i) & 1 == 1 {
                assert(self@.contains(i as int));
                return Some(RowIndex::from_value(i as usize));
            }
            i = i + 1;
        }
        assert(self@ =~= Set::<int>::empty());
        None
    }

    /// The members, in increasing order.
    pub fn iter(&self) -> (r: Vec<RowIndex>)
        ensures
            r@.map_values(|d: RowIndex| d@) == ascending(self@, 9),
    {
        let mut r: Vec<RowIndex> = Vec::new();
        let mut i: u16 = 0;
        while i < 9
            invariant
                i <= 9,
                r@.map_values(|d: RowIndex| d@) == ascending(self@, i as int),
            decreases 9 - i,
        {
            if (self.0 >> i) & 1 == 1 {
                r.push(RowIndex::from_value(i as usize));
            }
            assert(r@.map_values(|d: RowIndex| d@) =~= ascending(self@, i + 1));
            i = i + 1;
        }
        r
    }

    /// The set with `idx` added.
    pub fn add(self, idx: RowIndex) -> (r: Self)
        ensures
            r@ == self@.insert(idx@),
    {
        self.union(Self::only(idx))
    }

    /// The set with `idx` taken out.
    pub fn sub(self, idx: RowIndex) -> (r: Self)
        ensures
            r@ == self@.remove(idx@),
    {
        let r = self.intersection(Self::all_but(idx));
        proof {
            self.lemma_view();
        }
        assert(r@ =~= self@.remove(idx@));
        r
    }

    /// The members of either set.
    pub fn union(self, other: Self) -> (r: Self)
        ensures
            r@ == self@.union(other@),
    {
        proof {
            use_type_invariant(&self);
            use_type_invariant(&other);
            lemma_bits_set_ops(self.0, other.0);
        }
        RowFlags(self.0 | other.0)
    }

    /// The members of both sets.
    pub fn intersection(self, other: Self) -> (r: Self)
        ensures
            r@ == self@.intersect(other@),
    {
        proof {
            use_type_invariant(&self);
            use_type_invariant(&other);
            lemma_bits_set_ops(self.0, other.0);
        }
        RowFlags(self.0 & other.0)
    }

    /// The values of `0..9` that are not members.
    pub fn complement(self) -> (r: Self)
        ensures
            r@ == full_set().difference(self@),
    {
        proof {
            lemma_bits_set_ops(self.0, 0);
        }
        RowFlags(!self.0 & 511)
    }
}

impl PartialEq for RowFlags {
    fn eq(&self, other: &Self) -> (r: bool) {
        proof {
            use_type_invariant(self);
            use_type_invariant(other);
            lemma_bits_set_ext(self.0, other.0);
        }
        self.0 == other.0
    }
}

impl vstd::std_specs::cmp::PartialEqSpecImpl for RowFlags {
    open spec fn obeys_eq_spec() -> bool {
        true
    }

    open spec fn eq_spec(&self, other: &Self) -> bool {
        self@ == other@
    }
}

impl Eq for RowFlags {
}

/// A set of `ColumnIndex` values, one bit per value.
#[derive(Clone, Copy, Debug, Hash)]
pub struct ColumnFlags(u16);

impl ColumnFlags {
    #[verifier::type_invariant]
    spec fn inv(self) -> bool {
        self.0 < 512
    }

    /// The members of the set.
    pub closed spec fn view(self) -> Set<int> {
        bits_set(self.0)
    }

    /// The set holds only values of `0..9`, and finitely many.
    pub proof fn lemma_view(self)
        ensures
            self@.subset_of(full_set()),
            self@.finite(),
            self@.len() <= 9,
    {
        lemma_bits_set_ops(self.0, 0);
        vstd::set_lib::lemma_int_range(0, 9);
        assert(full_set() =~= vstd::set_lib::set_int_range(0, 9));
        vstd::set_lib::lemma_len_subset(self@, full_set());
    }

    /// The empty set.
    pub fn zero() -> (r: Self)
        ensures
            r@ == Set::<int>::empty(),
    {
        proof {
            lemma_bits_set_ops(0, 0);
        }
        ColumnFlags(0)
    }

    /// The set of all nine values.
    pub fn all() -> (r: Self)
        ensures
            r@ == full_set(),
    {
        proof {
            lemma_bits_set_ops(511, 0);
        }
        ColumnFlags(511)
    }

    /// The set given by the nine low bits of `flags`; higher bits are dropped.
    pub fn new(flags: u16) -> (r: Self)
        ensures
            r@ == bits_set(flags),
    {
        proof {
            lemma_bits_set_ops(flags, 0);
        }
        ColumnFlags(flags & 511)
    }

    /// The set that holds `idx` alone.
    pub fn only(idx: ColumnIndex) -> (r: Self)
        ensures
            r@ == Set::<int>::empty().insert(idx@),
    {
        let v = idx.value();
        proof {
            lemma_bits_set_single(v as u16);
        }
        ColumnFlags(1u16 << (v as u16))
    }

    /// The set of every value but `idx`.
    pub fn all_but(idx: ColumnIndex) -> (r: Self)
        ensures
            r@ == full_set().remove(idx@),
    {
        let v = idx.value();
        proof {
            lemma_bits_set_single(v as u16);
        }
        ColumnFlags(!(1u16 << (v as u16)) & 511)
    }

    /// The nine-bit pattern of the set: bit `i` is set when `i` is a member.
    pub fn bits(&self) -> (r: u16)
        ensures
            bits_set(r) == self@,
            r < 512,
    {
        proof {
            use_type_invariant(self);
        }
        self.0
    }

    /// Whether `idx` is a member.
    pub fn contains(&self, idx: ColumnIndex) -> (r: bool)
        ensures
            r == self@.contains(idx@),
    {
        let v = idx.value();
        assert((v as u16) as int == idx@);
                (self.0 >> (v as u16)) & 1 == 1
    }

    /// Whether the set has a member.
    pub fn any(&self) -> (r: bool)
        ensures
            r == (self@ != Set::<int>::empty()),
    {
        proof {
            use_type_invariant(self);
            lemma_bits_set_ops(0, 0);
            lemma_bits_set_ext(self.0, 0);
        }
        self.0 != 0
    }

    /// How many members the set has.
    pub fn count(&self) -> (r: usize)
        ensures
            r == self@.len(),
            r <= 9,
    {
        let mut i: u16 = 0;
        let mut n: usize = 0;
        while i < 9
            invariant
                i <= 9,
                n == count_below(self.0, i as int),
                n <= i,
            decreases 9 - i,
        {
            if (self.0 >> i) & 1 == 1 {
                n = n + 1;
            }
            i = i + 1;
        }
        proof {
            lemma_count_below(self.0, 9);
        }
        n
    }

    /// The smallest member, if there is one.
    pub fn first(&self) -> (r: Option<ColumnIndex>)
        ensures
            r is None <==> self@ == Set::<int>::empty(),
            r matches Some(i) ==> self@.contains(i@) && forall|j: int| 0 <= j < i@ ==> !self@.contains(j),
    {
        let mut i: u16 = 0;
        while i < 9
            invariant
                i <= 9,
                forall|j: int| 0 <= j < i ==> !self@.contains(j),
            decreases 9 - i,
        {
            if (self.0 >> i) & 1 == 1 {
                assert(self@.contains(i as int));
                return Some(ColumnIndex::from_value(i as usize));
            }
            i = i + 1;
        }
        assert(self@ =~= Set::<int>::empty());
        None
    }

    /// The members, in increasing order.
    pub fn iter(&self) -> (r: Vec<ColumnIndex>)
        ensures
            r@.map_values(|d: ColumnIndex| d@) == ascending(self@, 9),
    {
        let mut r: Vec<ColumnIndex> = Vec::new();
        let mut i: u16 = 0;
        while i < 9
            invariant
                i <= 9,
                r@.map_values(|d: ColumnIndex| d@) == ascending(self@, i as int),
            decreases 9 - i,
        {
            if (self.0 >> i) & 1 == 1 {
                r.push(ColumnIndex::from_value(i as usize));
            }
            assert(r@.map_values(|d: ColumnIndex| d@) =~= ascending(self@, i + 1));
            i = i + 1;
        }
        r
    }

    /// The set with `idx` added.
    pub fn add(self, idx: ColumnIndex) -> (r: Self)
        ensures
            r@ == self@.insert(idx@),
    {
        self.union(Self::only(idx))
    }

    /// The set with `idx` taken out.
    pub fn sub(self, idx: ColumnIndex) -> (r: Self)
        ensures
            r@ == self@.remove(idx@),
    {
        let r = self.intersection(Self::all_but(idx));
        proof {
            self.lemma_view();
        }
        assert(r@ =~= self@.remove(idx@));
        r
    }

    /// The members of either set.
    pub fn union(self, other: Self) -> (r: Self)
        ensures
            r@ == self@.union(other@),
    {
        proof {
            use_type_invariant(&self);
            use_type_invariant(&other);
            lemma_bits_set_ops(self.0, other.0);
        }
        ColumnFlags(self.0 | other.0)
    }

    /// The members of both sets.
    pub fn intersection(self, other: Self) -> (r: Self)
        ensures
            r@ == self@.intersect(other@),
    {
        proof {
            use_type_invariant(&self);
            use_type_invariant(&other);
            lemma_bits_set_ops(self.0, other.0);
        }
        ColumnFlags(self.0 & other.0)
    }

    /// The values of `0..9` that are not members.
    pub fn complement(self) -> (r: Self)
        ensures
            r@ == full_set().difference(self@),
    {
        proof {
            lemma_bits_set_ops(self.0, 0);
        }
        ColumnFlags(!self.0 & 511)
    }
}

impl PartialEq for ColumnFlags {
    fn eq(&self, other: &Self) -> (r: bool) {
        proof {
            use_type_invariant(self);
            use_type_invariant(other);
            lemma_bits_set_ext(self.0, other.0);
        }
        self.0 == other.0
    }
}

impl vstd::std_specs::cmp::PartialEqSpecImpl for ColumnFlags {
    open spec fn obeys_eq_spec() -> bool {
        true
    }

    open spec fn eq_spec(&self, other: &Self) -> bool {
        self@ == other@
    }
}

impl Eq for ColumnFlags {
}

/// A set of `BlockIndex` values, one bit per value.
#[derive(Clone, Copy, Debug, Hash)]
pub struct BlockFlags(u16);

impl BlockFlags {
    #[verifier::type_invariant]
    spec fn inv(self) -> bool {
        self.0 < 512
    }

    /// The members of the set.
    pub closed spec fn view(self) -> Set<int> {
        bits_set(self.0)
    }

    /// The set holds only values of `0..9`, and finitely many.
    pub proof fn lemma_view(self)
        ensures
            self@.subset_of(full_set()),
            self@.finite(),
            self@.len() <= 9,
    {
        lemma_bits_set_ops(self.0, 0);
        vstd::set_lib::lemma_int_range(0, 9);
        assert(full_set() =~= vstd::set_lib::set_int_range(0, 9));
        vstd::set_lib::lemma_len_subset(self@, full_set());
    }

    /// The empty set.
    pub fn zero() -> (r: Self)
        ensures
            r@ == Set::<int>::empty(),
    {
        proof {
            lemma_bits_set_ops(0, 0);
        }
        BlockFlags(0)
    }

    /// The set of all nine values.
    pub fn all() -> (r: Self)
        ensures
            r@ == full_set(),
    {
        proof {
            lemma_bits_set_ops(511, 0);
        }
        BlockFlags(511)
    }

    /// The set given by the nine low bits of `flags`; higher bits are dropped.
    pub fn new(flags: u16) -> (r: Self)
        ensures
            r@ == bits_set(flags),
    {
        proof {
            lemma_bits_set_ops(flags, 0);
        }
        BlockFlags(flags & 511)
    }

    /// The set that holds `idx` alone.
    pub fn only(idx: BlockIndex) -> (r: Self)
        ensures
            r@ == Set::<int>::empty().insert(idx@),
    {
        let v = idx.value();
        proof {
            lemma_bits_set_single(v as u16);
        }
        BlockFlags(1u16 << (v as u16))
    }

    /// The set of every value but `idx`.
    pub fn all_but(idx: BlockIndex) -> (r: Self)
        ensures
            r@ == full_set().remove(idx@),
    {
        let v = idx.value();
        proof {
            lemma_bits_set_single(v as u16);
        }
        BlockFlags(!(1u16 << (v as u16)) & 511)
    }

    /// The nine-bit pattern of the set: bit `i` is set when `i` is a member.
    pub fn bits(&self) -> (r: u16)
        ensures
            bits_set(r) == self@,
            r < 512,
    {
        proof {
            use_type_invariant(self);
        }
        self.0
    }

    /// Whether `idx` is a member.
    pub fn contains(&self, idx: BlockIndex) -> (r: bool)
        ensures
            r == self@.contains(idx@),
    {
        let v = idx.value();
        assert((v as u16) as int == idx@);
                (self.0 >> (v as u16)) & 1 == 1
    }

    /// Whether the set has a member.
    pub fn any(&self) -> (r: bool)
        ensures
            r == (self@ != Set::<int>::empty()),
    {
        proof {
            use_type_invariant(self);
            lemma_bits_set_ops(0, 0);
            lemma_bits_set_ext(self.0, 0);
        }
        self.0 != 0
    }

    /// How many members the set has.
    pub fn count(&self) -> (r: usize)
        ensures
            r == self@.len(),
            r <= 9,
    {
        let mut i: u16 = 0;
        let mut n: usize = 0;
        while i < 9
            invariant
                i <= 9,
                n == count_below(self.0, i as int),
                n <= i,
            decreases 9 - i,
        {
            if (self.0 >> i) & 1 == 1 {
                n = n + 1;
            }
            i = i + 1;
        }
        proof {
            lemma_count_below(self.0, 9);
        }
        n
    }

    /// The smallest member, if there is one.
    pub fn first(&self) -> (r: Option<BlockIndex>)
        ensures
            r is None <==> self@ == Set::<int>::empty(),
            r matches Some(i) ==> self@.contains(i@) && forall|j: int| 0 <= j < i@ ==> !self@.contains(j),
    {
        let mut i: u16 = 0;
        while i < 9
            invariant
                i <= 9,
                forall|j: int| 0 <= j < i ==> !self@.contains(j),
            decreases 9 - i,
        {
            if (self.0 >> i) & 1 == 1 {
                assert(self@.contains(i as int));
                return Some(BlockIndex::from_value(i as usize));
            }
            i = i + 1;
        }
        assert(self@ =~= Set::<int>::empty());
        None
    }

    /// The members, in increasing order.
    pub fn iter(&self) -> (r: Vec<BlockIndex>)
        ensures
            r@.map_values(|d: BlockIndex| d@) == ascending(self@, 9),
    {
        let mut r: Vec<BlockIndex> = Vec::new();
        let mut i: u16 = 0;
        while i < 9
            invariant
                i <= 9,
                r@.map_values(|d: BlockIndex| d@) == ascending(self@, i as int),
            decreases 9 - i,
        {
            if (self.0 >> i) & 1 == 1 {
                r.push(BlockIndex::from_value(i as usize));
            }
            assert(r@.map_values(|d: BlockIndex| d@) =~= ascending(self@, i + 1));
            i = i + 1;
        }
        r
    }

    /// The set with `idx` added.
    pub fn add(self, idx: BlockIndex) -> (r: Self)
        ensures
            r@ == self@.insert(idx@),
    {
        self.union(Self::only(idx))
    }

    /// The set with `idx` taken out.
    pub fn sub(self, idx: BlockIndex) -> (r: Self)
        ensures
            r@ == self@.remove(idx@),
    {
        let r = self.intersection(Self::all_but(idx));
        proof {
            self.lemma_view();
        }
        assert(r@ =~= self@.remove(idx@));
        r
    }

    /// The members of either set.
    pub fn union(self, other: Self) -> (r: Self)
        ensures
            r@ == self@.union(other@),
    {
        proof {
            use_type_invariant(&self);
            use_type_invariant(&other);
            lemma_bits_set_ops(self.0, other.0);
        }
        BlockFlags(self.0 | other.0)
    }

    /// The members of both sets.
    pub fn intersection(self, other: Self) -> (r: Self)
        ensures
            r@ == self@.intersect(other@),
    {
        proof {
            use_type_invariant(&self);
            use_type_invariant(&other);
            lemma_bits_set_ops(self.0, other.0);
        }
        BlockFlags(self.0 & other.0)
    }

    /// The values of `0..9` that are not members.
    pub fn complement(self) -> (r: Self)
        ensures
            r@ == full_set().difference(self@),
    {
        proof {
            lemma_bits_set_ops(self.0, 0);
        }
        BlockFlags(!self.0 & 511)
    }
}

impl PartialEq for BlockFlags {
    fn eq(&self, other: &Self) -> (r: bool) {
        proof {
            use_type_invariant(self);
            use_type_invariant(other);
            lemma_bits_set_ext(self.0, other.0);
        }
        self.0 == other.0
    }
}

impl vstd::std_specs::cmp::PartialEqSpecImpl for BlockFlags {
    open spec fn obeys_eq_spec() -> bool {
        true
    }

    open spec fn eq_spec(&self, other: &Self) -> bool {
        self@ == other@
    }
}

impl Eq for BlockFlags {
}

} // verus!
