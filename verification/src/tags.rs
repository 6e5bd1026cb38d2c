//! Validated, deduplicated string sets used for account tags and labels.
//!
//! A token is accepted when it consists only of ASCII letters, digits and
//! underscores.  Duplicate tokens collapse silently; display order is a
//! natural (numeric-aware) lexical sort, computed by a verified comparator.

use vstd::prelude::*;

verus! {

/// The characters a tag or label token may contain: `[A-Za-z0-9_]`.
pub open spec fn is_token_char(c: char) -> bool {
    let n = c as u32;
    (97 <= n && n <= 122)  // 'a'..='z'
    || (65 <= n && n <= 90)  // 'A'..='Z'
    || (48 <= n && n <= 57)  // '0'..='9'
    || n == 95  // '_'
}

/// A valid token: non-empty and made of token characters only.
pub open spec fn valid_token(s: Seq<char>) -> bool {
    s.len() > 0 && (forall|i: int| 0 <= i < s.len() ==> is_token_char(s[i]))
}

/// The views of a sequence of owned strings.
pub open spec fn seq_views(s: Seq<String>) -> Seq<Seq<char>> {
    s.map_values(|x: String| x@)
}

/// The views of a sequence of borrowed strings.
pub open spec fn str_views(s: Seq<&str>) -> Seq<Seq<char>> {
    s.map_values(|x: &str| x@)
}

/// Keeps the first occurrence of each element, dropping later duplicates.
pub open spec fn dedup_first(s: Seq<Seq<char>>) -> Seq<Seq<char>>
    decreases s.len(),
{
    if s.len() == 0 {
        Seq::empty()
    } else {
        let rest = dedup_first(s.drop_last());
        if rest.contains(s.last()) {
            rest
        } else {
            rest.push(s.last())
        }
    }
}

/// Deduplication keeps exactly the elements of the input, each once.
pub proof fn lemma_dedup_first(s: Seq<Seq<char>>)
    ensures
        forall|x: Seq<char>| dedup_first(s).contains(x) <==> s.contains(x),
        forall|i: int, j: int|
            0 <= i < j < dedup_first(s).len() ==> dedup_first(s)[i] != dedup_first(s)[j],
    decreases s.len(),
{
    if s.len() == 0 {
        assert(forall|x: Seq<char>| !s.contains(x));
    } else {
        let ds = s.drop_last();
        lemma_dedup_first(ds);
        let rest = dedup_first(ds);
        let d = dedup_first(s);
        assert(forall|k: int| 0 <= k < ds.len() ==> ds[k] == s[k]);
        assert forall|x: Seq<char>| d.contains(x) implies s.contains(x) by {
            let m = choose|m: int| 0 <= m < d.len() && d[m] == x;
            if m < rest.len() {
                assert(rest[m] == x);
                assert(rest.contains(x));
                assert(ds.contains(x));
                let k = choose|k: int| 0 <= k < ds.len() && ds[k] == x;
                assert(s[k] == x);
            } else {
                assert(d == rest.push(s.last()));
                assert(d[m] == s.last());
                assert(s[s.len() - 1] == x);
            }
        }
        assert forall|x: Seq<char>| s.contains(x) implies d.contains(x) by {
            let k = choose|k: int| 0 <= k < s.len() && s[k] == x;
            if k < s.len() - 1 {
                assert(ds[k] == x);
                assert(ds.contains(x));
                assert(rest.contains(x));
                let m = choose|m: int| 0 <= m < rest.len() && rest[m] == x;
                if rest.contains(s.last()) {
                    assert(d[m] == x);
                } else {
                    assert(d == rest.push(s.last()));
                    assert(d[m] == x);
                }
            } else {
                if rest.contains(s.last()) {
                    assert(d == rest);
                    assert(rest.contains(x));
                } else {
                    assert(d == rest.push(s.last()));
                    assert(d[d.len() - 1] == x);
                }
            }
        }
        assert forall|i: int, j: int| 0 <= i < j < d.len() implies d[i] != d[j] by {
            if j < rest.len() {
                assert(rest[i] == d[i] && rest[j] == d[j]);
            } else {
                assert(d == rest.push(s.last()));
                assert(d[j] == s.last());
                assert(!rest.contains(s.last()));
                assert(rest[i] == d[i]);
                if d[i] == d[j] {
                    assert(rest.contains(s.last()));
                }
            }
        }
    }
}

/// Character-by-character string equality.
pub fn str_eq(a: &str, b: &str) -> (r: bool)
    ensures
        r == (a@ == b@),
{
    let n = a.unicode_len();
    if n != b.unicode_len() {
        proof {
            assert(a@.len() != b@.len());
        }
        return false;
    }
    let mut i: usize = 0;
    while i < n
        invariant
            i <= n,
            n == a@.len(),
            n == b@.len(),
            forall|k: int| 0 <= k < i ==> a@[k] == b@[k],
        decreases n - i,
    {
        if a.get_char(i) != b.get_char(i) {
            return false;
        }
        i += 1;
    }
    proof {
        assert(a@ =~= b@);
    }
    true
}

fn token_char(c: char) -> (r: bool)
    ensures
        r == is_token_char(c),
{
    let n = c as u32;
    (97 <= n && n <= 122) || (65 <= n && n <= 90) || (48 <= n && n <= 57) || n == 95
}

/// Whether `s` is a valid tag or label token.
pub fn check_token(s: &str) -> (r: bool)
    ensures
        r == valid_token(s@),
{
    let len = s.unicode_len();
    if len == 0 {
        return false;
    }
    let mut i: usize = 0;
    while i < len
        invariant
            i <= len,
            len == s@.len(),
            forall|k: int| 0 <= k < i ==> is_token_char(s@[k]),
        decreases len - i,
    {
        if !token_char(s.get_char(i)) {
            return false;
        }
        i += 1;
    }
    true
}

/// An insertion-ordered list of strings without duplicates.
#[derive(Debug)]
pub struct SetOfStrings {
    items: Vec<String>,
}

impl View for SetOfStrings {
    type V = Seq<Seq<char>>;

    closed spec fn view(&self) -> Seq<Seq<char>> {
        seq_views(self.items@)
    }
}

impl SetOfStrings {
    pub fn new() -> (r: SetOfStrings)
        ensures
            r@ == Seq::<Seq<char>>::empty(),
    {
        let r = SetOfStrings { items: Vec::new() };
        proof {
            assert(r@ =~= Seq::<Seq<char>>::empty());
        }
        r
    }

    /// Whether some member's view equals `s@`.
    pub fn contains_str(&self, s: &str) -> (r: bool)
        ensures
            r == self@.contains(s@),
    {
        let n = self.items.len();
        let mut i: usize = 0;
        while i < n
            invariant
                i <= n,
                n == self.items@.len(),
                forall|k: int| 0 <= k < i ==> self@[k] != s@,
            decreases n - i,
        {
            if str_eq(self.items[i].as_str(), s) {
                assert(self@[i as int] == s@);
                return true;
            }
            i += 1;
        }
        assert(forall|k: int| 0 <= k < self@.len() ==> self@[k] != s@);
        false
    }

    /// Builds the set from a list, keeping each first occurrence.
    pub fn from_list(list: &[&str]) -> (r: SetOfStrings)
        ensures
            r@ == dedup_first(str_views(list@)),
    {
        let n = list.len();
        let mut r = SetOfStrings::new();
        let mut i: usize = 0;
        while i < n
            invariant
                i <= n,
                n == list@.len(),
                r@ == dedup_first(str_views(list@.take(i as int))),
            decreases n - i,
        {
            let ghost pre = str_views(list@.take(i as int));
            let ghost cur = str_views(list@.take(i + 1 as int));
            proof {
                assert(cur.drop_last() =~= pre);
                assert(cur.last() == list@[i as int]@);
            }
            if !r.contains_str(list[i]) {
                let owned = String::from_str(list[i]);
                let ghost old_items = r.items@;
                r.items.push(owned);
                proof {
                    assert(seq_views(old_items.push(owned)) =~= seq_views(old_items).push(
                        owned@,
                    ));
                }
            }
            i += 1;
        }
        proof {
            assert(list@.take(n as int) =~= list@);
        }
        r
    }

    /// The members, in insertion order.
    pub fn iter(&self) -> (r: &Vec<String>)
        ensures
            seq_views(r@) == self@,
    {
        &self.items
    }

    pub fn len(&self) -> (r: usize)
        ensures
            r == self@.len(),
    {
        self.items.len()
    }

    /// The members in natural sort order, as [`natural_cmp_spec`]
    /// describes: a permutation of the set, pairwise non-descending.
    pub fn sorted(&self) -> (r: Vec<String>)
        ensures
            seq_views(r@).to_multiset() == self@.to_multiset(),
            natural_sorted(seq_views(r@)),
    {
        let n = self.items.len();
        let mut r: Vec<String> = Vec::new();
        proof {
            assert(seq_views(r@) =~= self@.take(0));
        }
        let mut i: usize = 0;
        while i < n
            invariant
                i <= n,
                n == self.items@.len(),
                seq_views(r@).to_multiset() == self@.take(i as int).to_multiset(),
                forall|a: int, b: int|
                    0 <= a < b < r@.len() ==> natural_cmp_spec(
                        #[trigger] seq_views(r@)[a],
                        #[trigger] seq_views(r@)[b],
                    ) <= 0,
            decreases n - i,
        {
            let item = self.items[i].clone();
            assert(item@ == self@[i as int]);
            let m = r.len();
            let mut j: usize = 0;
            while j < m
                invariant
                    j <= m,
                    m == r@.len(),
                    forall|u: int|
                        0 <= u < j ==> natural_cmp_spec(item@, #[trigger] seq_views(r@)[u]) >= 0,
                ensures
                    j <= m,
                    m == r@.len(),
                    forall|u: int|
                        0 <= u < j ==> natural_cmp_spec(item@, #[trigger] seq_views(r@)[u]) >= 0,
                    j < m ==> natural_cmp_spec(item@, seq_views(r@)[j as int]) < 0,
                decreases m - j,
            {
                proof {
                    assert(seq_views(r@)[j as int] == r@[j as int]@);
                }
                if natural_cmp(item.as_str(), r[j].as_str()) < 0 {
                    break ;
                }
                j += 1;
            }
            let ghost before = seq_views(r@);
            r.insert(j, item);
            proof {
                assert(seq_views(r@) =~= before.insert(j as int, item@));
                lemma_insert_to_multiset(before, j as int, item@);
                broadcast use vstd::seq_lib::group_to_multiset_ensures;

                assert(self@.take(i + 1 as int).drop_last() =~= self@.take(i as int));
                assert(self@.take(i + 1 as int) =~= self@.take(i as int).push(
                    self@[i as int],
                ));
                // The insertion keeps the sequence sorted.
                let now = seq_views(r@);
                assert(now.len() == before.len() + 1);
                assert(forall|t: int| 0 <= t < j ==> now[t] == before[t]);
                assert(now[j as int] == item@);
                assert(forall|t: int| j < t < now.len() ==> now[t] == before[t - 1]);
                assert forall|a: int, b: int| 0 <= a < b < now.len() implies natural_cmp_spec(
                    #[trigger] now[a],
                    #[trigger] now[b],
                ) <= 0 by {
                    if b < j {
                        assert(natural_cmp_spec(before[a], before[b]) <= 0);
                    } else if a < j && b == j {
                        assert(natural_cmp_spec(item@, before[a]) >= 0);
                        lemma_key_cmp_flip(full_key(before[a]), full_key(item@));
                    } else if a < j && b > j {
                        assert(natural_cmp_spec(before[a], before[b - 1]) <= 0);
                    } else if a == j {
                        assert(b > j);
                        assert(j < before.len());
                        assert(natural_cmp_spec(item@, before[j as int]) < 0);
                        if b - 1 > j {
                            assert(natural_cmp_spec(before[j as int], before[b - 1]) <= 0);
                            lemma_key_cmp_trans(
                                full_key(item@),
                                full_key(before[j as int]),
                                full_key(before[b - 1]),
                            );
                        }
                    } else {
                        assert(a > j);
                        assert(natural_cmp_spec(before[a - 1], before[b - 1]) <= 0);
                    }
                }
            }
            i += 1;
        }
        proof {
            assert(self@.take(n as int) =~= self@);
        }
        r
    }
}

proof fn lemma_insert_to_multiset(s: Seq<Seq<char>>, j: int, v: Seq<char>)
    requires
        0 <= j <= s.len(),
    ensures
        s.insert(j, v).to_multiset() =~= s.to_multiset().insert(v),
{
    broadcast use vstd::seq_lib::group_to_multiset_ensures;
    broadcast use vstd::multiset::group_multiset_axioms;

    let left = s.subrange(0, j);
    let right = s.subrange(j, s.len() as int);
    assert(s =~= left + right);
    vstd::seq_lib::lemma_multiset_commutative(left.push(v), right);
    vstd::seq_lib::lemma_multiset_commutative(left, right);
    assert(left.push(v).to_multiset() =~= left.to_multiset().insert(v));
    assert(s.insert(j, v).to_multiset() =~= s.to_multiset().insert(v));
}

/// An ASCII decimal digit.
pub open spec fn is_digit(c: char) -> bool {
    48 <= c as u32 <= 57
}

fn digit_exec(c: char) -> (r: bool)
    ensures
        r == is_digit(c),
{
    let n = c as u32;
    48 <= n && n <= 57
}

/// The end of the digit run continuing at `k`.
pub open spec fn digit_run_end(s: Seq<char>, k: int) -> int
    decreases s.len() - k,
{
    if 0 <= k < s.len() && is_digit(s[k]) {
        digit_run_end(s, k + 1)
    } else {
        k
    }
}

pub proof fn lemma_digit_run_end(s: Seq<char>, k: int)
    requires
        0 <= k <= s.len(),
    ensures
        k <= digit_run_end(s, k) <= s.len(),
        forall|j: int| k <= j < digit_run_end(s, k) ==> is_digit(#[trigger] s[j]),
    decreases s.len() - k,
{
    if k < s.len() && is_digit(s[k]) {
        lemma_digit_run_end(s, k + 1);
    }
}

fn digit_run_end_exec(s: &str, k: usize) -> (r: usize)
    requires
        k <= s@.len(),
    ensures
        r as int == digit_run_end(s@, k as int),
        k <= r <= s@.len(),
{
    let n = s.unicode_len();
    let mut r = k;
    while r < n && digit_exec(s.get_char(r))
        invariant
            k <= r <= n,
            n == s@.len(),
            digit_run_end(s@, k as int) == digit_run_end(s@, r as int),
        decreases n - r,
    {
        r += 1;
    }
    r
}

/// The digits of `s[a..b)`, as digit atoms.
pub open spec fn digit_atoms(s: Seq<char>, a: int, b: int) -> Seq<(int, int)> {
    s.subrange(a, b).map_values(|c: char| (2int, c as int))
}

/// The sort key atoms of `s` from position `i` on.  An underscore
/// contributes nothing; a run of digits contributes its length and then
/// its digits, so that runs compare by length first — leading zeros
/// included — and digit by digit after that, which for equal lengths is
/// the numeric order; any other character stands for itself, with digit
/// runs ordering before it.
pub open spec fn key_atoms(s: Seq<char>, i: int) -> Seq<(int, int)>
    decreases s.len() - i,
{
    if 0 <= i < s.len() {
        let c = s[i];
        if c == '_' {
            key_atoms(s, i + 1)
        } else {
            let e = digit_run_end(s, i + 1);
            if is_digit(c) && i + 1 <= e && e <= s.len() {
                seq![(1int, e - i)] + digit_atoms(s, i, e) + key_atoms(s, e)
            } else {
                seq![(3int, c as int)] + key_atoms(s, i + 1)
            }
        }
    } else {
        Seq::empty()
    }
}

/// The full sort key of a string: its atoms, a separator below every
/// atom, and then the string itself character by character, so that equal
/// atom lists fall back to plain character order.
pub open spec fn full_key(s: Seq<char>) -> Seq<(int, int)> {
    key_atoms(s, 0) + seq![(0int, 0int)] + s.map_values(|c: char| (4int, c as int))
}

/// The strict order on key atoms.
pub open spec fn pair_lt(a: (int, int), b: (int, int)) -> bool {
    a.0 < b.0 || (a.0 == b.0 && a.1 < b.1)
}

/// Three-way lexicographic comparison of two keys: negative, zero or
/// positive for less, equal, greater.
pub open spec fn key_cmp(x: Seq<(int, int)>, y: Seq<(int, int)>) -> int
    decreases x.len(),
{
    if x.len() == 0 && y.len() == 0 {
        0
    } else if x.len() == 0 {
        -1
    } else if y.len() == 0 {
        1
    } else if pair_lt(x[0], y[0]) {
        -1
    } else if pair_lt(y[0], x[0]) {
        1
    } else {
        key_cmp(x.drop_first(), y.drop_first())
    }
}

/// The natural (numeric-aware) lexical order on strings, used for display:
/// negative, zero or positive for less, equal, greater.  Underscores are
/// skipped, digit runs compare as numbers — longer runs, leading zeros
/// included, order after shorter ones — digits order before other
/// characters, and ties fall back to plain character order.
pub open spec fn natural_cmp_spec(a: Seq<char>, b: Seq<char>) -> int {
    key_cmp(full_key(a), full_key(b))
}

/// Pairwise non-descending in the natural order.
pub open spec fn natural_sorted(p: Seq<Seq<char>>) -> bool {
    forall|a: int, b: int|
        0 <= a < b < p.len() ==> natural_cmp_spec(#[trigger] p[a], #[trigger] p[b]) <= 0
}

/// Comparing the other way round flips the sign.
pub proof fn lemma_key_cmp_flip(x: Seq<(int, int)>, y: Seq<(int, int)>)
    ensures
        key_cmp(x, y) == -key_cmp(y, x),
    decreases x.len(),
{
    if x.len() > 0 && y.len() > 0 && !pair_lt(x[0], y[0]) && !pair_lt(y[0], x[0]) {
        lemma_key_cmp_flip(x.drop_first(), y.drop_first());
    }
}

/// The key order is transitive.
pub proof fn lemma_key_cmp_trans(x: Seq<(int, int)>, y: Seq<(int, int)>, z: Seq<(int, int)>)
    requires
        key_cmp(x, y) <= 0,
        key_cmp(y, z) <= 0,
    ensures
        key_cmp(x, z) <= 0,
    decreases x.len(),
{
    if x.len() > 0 && y.len() > 0 && z.len() > 0 {
        if !pair_lt(x[0], z[0]) && !pair_lt(z[0], x[0]) {
            // The heads are all equal, so the tails decide.
            assert(!pair_lt(y[0], x[0]));
            assert(!pair_lt(z[0], y[0]));
            assert(x[0] == y[0] && y[0] == z[0]);
            lemma_key_cmp_trans(x.drop_first(), y.drop_first(), z.drop_first());
        } else if pair_lt(z[0], x[0]) {
            // Impossible: the heads never decrease along x, y, z.
            assert(!pair_lt(y[0], x[0]));
            assert(!pair_lt(z[0], y[0]));
        }
    }
}

/// The view of an executable key.
pub open spec fn key_view(v: Seq<(u8, u64)>) -> Seq<(int, int)> {
    v.map_values(|p: (u8, u64)| (p.0 as int, p.1 as int))
}

/// Builds the sort key of a string, as [`full_key`] describes.
fn build_key(s: &str) -> (r: Vec<(u8, u64)>)
    ensures
        key_view(r@) == full_key(s@),
{
    let n = s.unicode_len();
    let mut r: Vec<(u8, u64)> = Vec::new();
    let mut i: usize = 0;
    proof {
        assert(key_view(r@) =~= Seq::<(int, int)>::empty());
        assert(key_atoms(s@, 0) =~= Seq::<(int, int)>::empty() + key_atoms(s@, 0));
    }
    while i < n
        invariant
            i <= n,
            n == s@.len(),
            key_atoms(s@, 0) == key_view(r@) + key_atoms(s@, i as int),
        decreases n - i,
    {
        let c = s.get_char(i);
        if c == '_' {
            i += 1;
        } else if digit_exec(c) {
            let e = digit_run_end_exec(s, i + 1);
            let ghost before = key_view(r@);
            r.push((1u8, (e - i) as u64));
            proof {
                assert(key_view(r@) =~= before.push((1int, e - i as int)));
            }
            let mut j = i;
            while j < e
                invariant
                    i <= j <= e <= n,
                    n == s@.len(),
                    key_view(r@) =~= before.push((1int, e - i as int)) + digit_atoms(
                        s@,
                        i as int,
                        j as int,
                    ),
                decreases e - j,
            {
                let d = s.get_char(j);
                let ghost mid = key_view(r@);
                r.push((2u8, d as u64));
                proof {
                    assert(key_view(r@) =~= mid.push((2int, d as int)));
                    assert(digit_atoms(s@, i as int, j + 1 as int) =~= digit_atoms(
                        s@,
                        i as int,
                        j as int,
                    ).push((2int, s@[j as int] as int)));
                }
                j += 1;
            }
            proof {
                assert(key_atoms(s@, i as int) == seq![(1int, e - i as int)] + digit_atoms(
                    s@,
                    i as int,
                    e as int,
                ) + key_atoms(s@, e as int));
                assert(key_view(r@) =~= before + (seq![(1int, e - i as int)] + digit_atoms(
                    s@,
                    i as int,
                    e as int,
                )));
                assert(key_view(r@) + key_atoms(s@, e as int) =~= before + key_atoms(
                    s@,
                    i as int,
                ));
            }
            i = e;
        } else {
            let ghost before = key_view(r@);
            r.push((3u8, c as u64));
            proof {
                assert(key_view(r@) =~= before.push((3int, c as int)));
                assert(key_atoms(s@, i as int) == seq![(3int, c as int)] + key_atoms(
                    s@,
                    i + 1 as int,
                ));
                assert(key_view(r@) + key_atoms(s@, i + 1 as int) =~= before + key_atoms(
                    s@,
                    i as int,
                ));
            }
            i += 1;
        }
    }
    let ghost atoms = key_view(r@);
    proof {
        assert(key_atoms(s@, n as int) =~= Seq::<(int, int)>::empty());
        assert(atoms =~= key_atoms(s@, 0));
    }
    r.push((0u8, 0u64));
    proof {
        assert(key_view(r@) =~= atoms.push((0int, 0int)));
    }
    let mut k: usize = 0;
    while k < n
        invariant
            k <= n,
            n == s@.len(),
            key_view(r@) =~= atoms.push((0int, 0int)) + s@.subrange(0, k as int).map_values(
                |c: char| (4int, c as int),
            ),
        decreases n - k,
    {
        let c = s.get_char(k);
        let ghost mid = key_view(r@);
        r.push((4u8, c as u64));
        proof {
            assert(key_view(r@) =~= mid.push((4int, c as int)));
            assert(s@.subrange(0, k + 1 as int).map_values(|c: char| (4int, c as int)) =~= s@.subrange(
                0,
                k as int,
            ).map_values(|c: char| (4int, c as int)).push((4int, s@[k as int] as int)));
        }
        k += 1;
    }
    proof {
        assert(s@.subrange(0, n as int) =~= s@);
        assert(key_view(r@) =~= full_key(s@));
    }
    r
}

/// Three-way comparison of two keys, as [`key_cmp`] describes.
fn key_cmp_exec(x: &Vec<(u8, u64)>, y: &Vec<(u8, u64)>) -> (r: i8)
    ensures
        r as int == key_cmp(key_view(x@), key_view(y@)),
        -1 <= r <= 1,
{
    let ghost xv = key_view(x@);
    let ghost yv = key_view(y@);
    let nx = x.len();
    let ny = y.len();
    let mut i: usize = 0;
    proof {
        assert(xv.skip(0) =~= xv);
        assert(yv.skip(0) =~= yv);
    }
    while i < nx && i < ny
        invariant
            i <= nx,
            i <= ny,
            nx == x@.len(),
            ny == y@.len(),
            xv == key_view(x@),
            yv == key_view(y@),
            key_cmp(xv, yv) == key_cmp(xv.skip(i as int), yv.skip(i as int)),
        decreases nx - i,
    {
        let a = x[i];
        let b = y[i];
        proof {
            assert(xv.skip(i as int)[0] == (a.0 as int, a.1 as int));
            assert(yv.skip(i as int)[0] == (b.0 as int, b.1 as int));
        }
        if a.0 < b.0 || (a.0 == b.0 && a.1 < b.1) {
            return -1;
        }
        if b.0 < a.0 || (b.0 == a.0 && b.1 < a.1) {
            return 1;
        }
        proof {
            assert(xv.skip(i as int).drop_first() =~= xv.skip(i + 1 as int));
            assert(yv.skip(i as int).drop_first() =~= yv.skip(i + 1 as int));
        }
        i += 1;
    }
    proof {
        assert(xv.skip(nx as int).len() == 0);
        assert(yv.skip(ny as int).len() == 0);
    }
    if nx == ny {
        0
    } else if nx < ny {
        proof {
            assert(yv.skip(i as int).len() > 0);
        }
        -1
    } else {
        1
    }
}

/// Three-way natural comparison of two strings, as [`natural_cmp_spec`]
/// describes.
pub fn natural_cmp(a: &str, b: &str) -> (r: i8)
    ensures
        r as int == natural_cmp_spec(a@, b@),
        -1 <= r <= 1,
{
    let ka = build_key(a);
    let kb = build_key(b);
    key_cmp_exec(&ka, &kb)
}

/// Rendering of a tag list: a ` =tag` piece for each member, in order.
pub open spec fn render_tags_seq(s: Seq<Seq<char>>) -> Seq<char>
    decreases s.len(),
{
    if s.len() == 0 {
        Seq::empty()
    } else {
        render_tags_seq(s.drop_last()) + seq![' ', '='] + s.last()
    }
}

/// Rendering of a label list: a ` [label]` piece for each member, in order.
pub open spec fn render_labels_seq(s: Seq<Seq<char>>) -> Seq<char>
    decreases s.len(),
{
    if s.len() == 0 {
        Seq::empty()
    } else {
        render_labels_seq(s.drop_last()) + seq![' ', '['] + s.last() + seq![']']
    }
}

/// A non-empty tag rendering decomposes from the front.
pub proof fn lemma_render_tags_front(ts: Seq<Seq<char>>)
    requires
        ts.len() > 0,
    ensures
        render_tags_seq(ts) == seq![' ', '='] + ts[0] + render_tags_seq(ts.drop_first()),
    decreases ts.len(),
{
    if ts.len() == 1 {
        assert(ts.drop_last() =~= Seq::<Seq<char>>::empty());
        assert(ts.drop_first() =~= Seq::<Seq<char>>::empty());
        assert(ts.last() == ts[0]);
        assert(render_tags_seq(ts) =~= seq![' ', '='] + ts[0] + render_tags_seq(
            ts.drop_first(),
        ));
    } else {
        let dl = ts.drop_last();
        lemma_render_tags_front(dl);
        assert(ts.drop_first().drop_last() =~= dl.drop_first());
        assert(ts.drop_first().last() == ts.last());
        assert(dl[0] == ts[0]);
        assert(render_tags_seq(ts.drop_first()) == render_tags_seq(ts.drop_first().drop_last())
            + seq![' ', '='] + ts.drop_first().last());
        assert(render_tags_seq(ts) =~= seq![' ', '='] + ts[0] + render_tags_seq(
            ts.drop_first(),
        ));
    }
}

/// A non-empty label rendering decomposes from the front.
pub proof fn lemma_render_labels_front(ls: Seq<Seq<char>>)
    requires
        ls.len() > 0,
    ensures
        render_labels_seq(ls) == seq![' ', '['] + ls[0] + seq![']'] + render_labels_seq(
            ls.drop_first(),
        ),
    decreases ls.len(),
{
    if ls.len() == 1 {
        assert(ls.drop_last() =~= Seq::<Seq<char>>::empty());
        assert(ls.drop_first() =~= Seq::<Seq<char>>::empty());
        assert(ls.last() == ls[0]);
        assert(render_labels_seq(ls) =~= seq![' ', '['] + ls[0] + seq![']'] + render_labels_seq(
            ls.drop_first(),
        ));
    } else {
        let dl = ls.drop_last();
        lemma_render_labels_front(dl);
        assert(ls.drop_first().drop_last() =~= dl.drop_first());
        assert(ls.drop_first().last() == ls.last());
        assert(dl[0] == ls[0]);
        assert(render_labels_seq(ls.drop_first()) == render_labels_seq(
            ls.drop_first().drop_last(),
        ) + seq![' ', '['] + ls.drop_first().last() + seq![']']);
        assert(render_labels_seq(ls) =~= seq![' ', '['] + ls[0] + seq![']'] + render_labels_seq(
            ls.drop_first(),
        ));
    }
}

/// The error for a tag that is not a valid token.
#[derive(Debug, Clone, PartialEq, Eq)]
pub struct InvalidTagError {
    pub name: String,
}

/// The error for a label that is not a valid token.
#[derive(Debug, Clone, PartialEq, Eq)]
pub struct InvalidLabelError {
    pub name: String,
}

/// Non-unique short annotations on an account or transaction.
#[derive(Debug)]
pub struct Tags {
    set: SetOfStrings,
}

impl View for Tags {
    type V = Seq<Seq<char>>;

    closed spec fn view(&self) -> Seq<Seq<char>> {
        self.set@
    }
}

/// Globally-unique alternate short names for an account.
#[derive(Debug)]
pub struct Labels {
    set: SetOfStrings,
}

impl View for Labels {
    type V = Seq<Seq<char>>;

    closed spec fn view(&self) -> Seq<Seq<char>> {
        self.set@
    }
}

/// The first member of `s`, in order, that is not a valid token, if any:
/// the search starting from position `k`.
pub open spec fn first_invalid_from(s: Seq<Seq<char>>, k: int) -> Option<Seq<char>>
    decreases s.len() - k,
{
    if 0 <= k < s.len() {
        if !valid_token(s[k]) {
            Some(s[k])
        } else {
            first_invalid_from(s, k + 1)
        }
    } else {
        None
    }
}

/// The first member of `s`, in order, that is not a valid token, if any.
pub open spec fn first_invalid(s: Seq<Seq<char>>) -> Option<Seq<char>> {
    first_invalid_from(s, 0)
}

pub proof fn lemma_first_invalid_none_from(s: Seq<Seq<char>>, j: int)
    requires
        0 <= j,
        forall|k: int| 0 <= k < s.len() ==> valid_token(#[trigger] s[k]),
    ensures
        first_invalid_from(s, j) is None,
    decreases s.len() - j,
{
    if j < s.len() {
        lemma_first_invalid_none_from(s, j + 1);
    }
}

/// A list whose members are all valid tokens, deduplicated, has no first
/// invalid member.
pub proof fn lemma_first_invalid_dedup_none(raw: Seq<Seq<char>>)
    requires
        forall|k: int| 0 <= k < raw.len() ==> valid_token(#[trigger] raw[k]),
    ensures
        first_invalid(dedup_first(raw)) is None,
{
    lemma_dedup_first(raw);
    let d = dedup_first(raw);
    assert forall|k: int| 0 <= k < d.len() implies valid_token(#[trigger] d[k]) by {
        assert(d.contains(d[k]));
        assert(raw.contains(d[k]));
        let j = choose|j: int| 0 <= j < raw.len() && raw[j] == d[k];
        assert(valid_token(raw[j]));
    }
    lemma_first_invalid_none_from(d, 0);
}

/// Scans a deduplicated set for its first member that is not a valid token.
fn find_invalid(set: &SetOfStrings) -> (r: Option<String>)
    ensures
        match r {
            Some(bad) => first_invalid(set@) == Some(bad@) && !valid_token(bad@)
                && set@.contains(bad@),
            None => first_invalid(set@) is None && forall|k: int|
                0 <= k < set@.len() ==> valid_token(set@[k]),
        },
{
    let items = set.iter();
    let n = items.len();
    let mut i: usize = 0;
    while i < n
        invariant
            i <= n,
            n == items@.len(),
            seq_views(items@) == set@,
            forall|k: int| 0 <= k < i ==> valid_token(set@[k]),
            first_invalid(set@) == first_invalid_from(set@, i as int),
        decreases n - i,
    {
        if !check_token(items[i].as_str()) {
            assert(set@[i as int] == items@[i as int]@);
            return Some(items[i].clone());
        }
        i += 1;
    }
    None
}

impl Tags {
    /// Builds the tag set, deduplicating and validating every token.
    /// Succeeds exactly when every given token is valid.
    pub fn from_iter(items: &[&str]) -> (r: Result<Tags, InvalidTagError>)
        ensures
            (r is Ok) <==> (forall|k: int|
                0 <= k < items@.len() ==> valid_token(str_views(items@)[k])),
            r matches Ok(t) ==> t@ == dedup_first(str_views(items@)),
            r matches Err(e) ==> first_invalid(dedup_first(str_views(items@))) == Some(e.name@)
                && !valid_token(e.name@) && str_views(items@).contains(e.name@),
    {
        let set = SetOfStrings::from_list(items);
        proof {
            lemma_dedup_first(str_views(items@));
        }
        match find_invalid(&set) {
            Some(bad) => {
                proof {
                    assert(str_views(items@).contains(bad@));
                    let k = choose|k: int|
                        0 <= k < str_views(items@).len() && str_views(items@)[k] == bad@;
                    assert(!valid_token(str_views(items@)[k]));
                }
                Err(InvalidTagError { name: bad })
            },
            None => {
                proof {
                    assert forall|k: int|
                        0 <= k < items@.len() implies valid_token(str_views(items@)[k]) by {
                        assert(str_views(items@).contains(str_views(items@)[k]));
                        assert(set@.contains(str_views(items@)[k]));
                    }
                }
                Ok(Tags { set })
            },
        }
    }

    /// The tags, in insertion order.
    pub fn iter(&self) -> (r: &Vec<String>)
        ensures
            seq_views(r@) == self@,
    {
        self.set.iter()
    }

    /// Renders the set as ` =tag` pieces: each member exactly once, in
    /// natural sort order, whatever order they were inserted in; the empty
    /// set renders as nothing.
    pub fn render(&self) -> (r: String)
        ensures
            exists|p: Seq<Seq<char>>|
                p.to_multiset() == self@.to_multiset() && natural_sorted(p) && r@
                    == render_tags_seq(p),
    {
        let sorted = self.set.sorted();
        let n = sorted.len();
        let mut r = String::new();
        let mut i: usize = 0;
        while i < n
            invariant
                i <= n,
                n == sorted@.len(),
                r@ == render_tags_seq(seq_views(sorted@).take(i as int)),
            decreases n - i,
        {
            r.append(" =");
            r.append(sorted[i].as_str());
            proof {
                reveal_strlit(" =");
                let pre = seq_views(sorted@).take(i as int);
                let cur = seq_views(sorted@).take(i + 1 as int);
                assert(cur.drop_last() =~= pre);
                assert(cur.last() == sorted@[i as int]@);
                assert(r@ =~= render_tags_seq(cur));
            }
            i += 1;
        }
        proof {
            assert(seq_views(sorted@).take(n as int) =~= seq_views(sorted@));
        }
        r
    }
}

impl Labels {
    /// Builds the label set, deduplicating and validating every token.
    /// Succeeds exactly when every given token is valid.
    pub fn from_iter(items: &[&str]) -> (r: Result<Labels, InvalidLabelError>)
        ensures
            (r is Ok) <==> (forall|k: int|
                0 <= k < items@.len() ==> valid_token(str_views(items@)[k])),
            r matches Ok(t) ==> t@ == dedup_first(str_views(items@)),
            r matches Err(e) ==> first_invalid(dedup_first(str_views(items@))) == Some(e.name@)
                && !valid_token(e.name@) && str_views(items@).contains(e.name@),
    {
        let set = SetOfStrings::from_list(items);
        proof {
            lemma_dedup_first(str_views(items@));
        }
        match find_invalid(&set) {
            Some(bad) => {
                proof {
                    assert(str_views(items@).contains(bad@));
                    let k = choose|k: int|
                        0 <= k < str_views(items@).len() && str_views(items@)[k] == bad@;
                    assert(!valid_token(str_views(items@)[k]));
                }
                Err(InvalidLabelError { name: bad })
            },
            None => {
                proof {
                    assert forall|k: int|
                        0 <= k < items@.len() implies valid_token(str_views(items@)[k]) by {
                        assert(str_views(items@).contains(str_views(items@)[k]));
                        assert(set@.contains(str_views(items@)[k]));
                    }
                }
                Ok(Labels { set })
            },
        }
    }

    /// The labels, in insertion order.
    pub fn iter(&self) -> (r: &Vec<String>)
        ensures
            seq_views(r@) == self@,
    {
        self.set.iter()
    }

    /// Renders the set as ` [label]` pieces: each member exactly once, in
    /// natural sort order, whatever order they were inserted in; the empty
    /// set renders as nothing.
    pub fn render(&self) -> (r: String)
        ensures
            exists|p: Seq<Seq<char>>|
                p.to_multiset() == self@.to_multiset() && natural_sorted(p) && r@
                    == render_labels_seq(p),
    {
        let sorted = self.set.sorted();
        let n = sorted.len();
        let mut r = String::new();
        let mut i: usize = 0;
        while i < n
            invariant
                i <= n,
                n == sorted@.len(),
                r@ == render_labels_seq(seq_views(sorted@).take(i as int)),
            decreases n - i,
        {
            r.append(" [");
            r.append(sorted[i].as_str());
            r.append("]");
            proof {
                reveal_strlit(" [");
                reveal_strlit("]");
                let pre = seq_views(sorted@).take(i as int);
                let cur = seq_views(sorted@).take(i + 1 as int);
                assert(cur.drop_last() =~= pre);
                assert(cur.last() == sorted@[i as int]@);
                assert(r@ =~= render_labels_seq(cur));
            }
            i += 1;
        }
        proof {
            assert(seq_views(sorted@).take(n as int) =~= seq_views(sorted@));
        }
        r
    }
}

} // verus!
