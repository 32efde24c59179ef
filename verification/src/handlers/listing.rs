//! The entries of a directory, and their order in a listing.

use vstd::prelude::*;
use vstd::string::*;

use crate::text;

verus! {

/// An entry of a directory.
#[derive(Debug)]
pub struct DirEntry {
    pub name: String,
    pub is_dir: bool,
    /// The size of a file in bytes; none where it is not known.
    pub size: Option<u64>,
}

/// A [`DirEntry`] with texts for its strings.
#[verifier::ext_equal]
pub struct EntryView {
    pub name: Seq<char>,
    pub is_dir: bool,
    pub size: Option<u64>,
}

impl View for DirEntry {
    type V = EntryView;

    open spec fn view(&self) -> EntryView {
        EntryView { name: self.name@, is_dir: self.is_dir, size: self.size }
    }
}

/// The views of a list of entries.
pub open spec fn entry_views(v: Seq<DirEntry>) -> Seq<EntryView> {
    v.map_values(|e: DirEntry| e@)
}

// ---------------------------------------------------------------------------
// Sizes
// ---------------------------------------------------------------------------

/// A quotient to the nearest whole number; halfway between two, to the even one.
pub open spec fn nearest(n: nat, d: nat) -> nat
    recommends
        d > 0,
{
    let q = n / d;
    let r = n % d;
    if 2 * r < d || (2 * r == d && q % 2 == 0) {
        q
    } else {
        q + 1
    }
}

/// The least of `step`, its double, and so on, of which a number is less than
/// `2^53` times.
pub open spec fn step_from(n: nat, step: nat) -> nat
    decreases n - step,
{
    if step == 0 || n < 0x20_0000_0000_0000 * step {
        step
    } else {
        step_from(n, 2 * step)
    }
}

/// A number to 53 binary digits, which is how exactly sizes are computed. Below
/// `2^53` it is the number itself.
pub open spec fn to_53_digits(n: nat) -> nat {
    let step = step_from(n, 1);
    nearest(n, step) * step
}

/// The tenths of a size in larger units.
pub open spec fn tenths(bytes: u64, divisor: u64) -> nat {
    nearest(10 * to_53_digits(bytes as nat), divisor as nat)
}

/// A size in larger units, to one decimal.
pub open spec fn scaled(bytes: u64, divisor: u64, unit: Seq<char>) -> Seq<char> {
    let t = tenths(bytes, divisor);
    text::decimal(t / 10) + "."@ + text::decimal(t % 10) + " "@ + unit
}

fn nearest_to(n: u128, d: u128) -> (r: u128)
    requires
        0 < d <= 0x1_0000_0000,
        n <= 0x1_0000_0000_0000_0000_0000,
    ensures
        r == nearest(n as nat, d as nat),
        r <= n / d + 1,
{
    let q: u128 = n / d;
    let rest: u128 = n % d;
    proof {
        assert(q <= n) by (nonlinear_arith)
            requires
                q == n / d,
                d > 0,
                n >= 0,
        ;
    }
    if 2 * rest < d || (2 * rest == d && q % 2 == 0) {
        q
    } else {
        q + 1
    }
}

fn exact_to_53_digits(bytes: u64) -> (r: u128)
    ensures
        r == to_53_digits(bytes as nat),
        r <= 0x1_0000_0000_0000_1000,
{
    let n: u128 = bytes as u128;
    let mut step: u128 = 1;
    while n >= 0x20_0000_0000_0000 * step
        invariant
            n == bytes,
            1 <= step < 4096,
            step_from(n as nat, 1) == step_from(n as nat, step as nat),
        decreases n - step,
    {
        step = 2 * step;
    }
    let q: u128 = nearest_to(n, step);
    proof {
        assert(q * step <= n + step) by (nonlinear_arith)
            requires
                q <= n / step + 1,
                step > 0,
                n >= 0,
        ;
        assert(0 <= q * step) by (nonlinear_arith)
            requires
                q >= 0,
                step > 0,
        ;
    }
    q * step
}

/// A size in larger units, to one decimal.
pub(crate) fn scaled_text(bytes: u64, divisor: u64, unit: &str) -> (r: String)
    requires
        divisor == 1024 || divisor == 1_048_576 || divisor == 1_073_741_824,
    ensures
        r@ == scaled(bytes, divisor, unit@),
{
    let n: u128 = 10 * exact_to_53_digits(bytes);
    let t: u128 = nearest_to(n, divisor as u128);
    assert(t <= 0x1000_0000_0000_0000) by {
        assert(n <= 0xB_0000_0000_0000_0000);
        assert(n / 1_048_576 <= n / 1024);
        assert(n / 1_073_741_824 <= n / 1024);
    }
    let mut s = text::decimal_text((t / 10) as u64);
    s.append(".");
    s.append(text::decimal_text((t % 10) as u64).as_str());
    s.append(" ");
    s.append(unit);
    assert(s@ =~= scaled(bytes, divisor, unit@));
    s
}

/// A size below one kibibyte.
pub(crate) fn bytes_text(bytes: u64) -> (r: String)
    ensures
        r@ == text::decimal(bytes as nat) + " B"@,
{
    let mut s = text::decimal_text(bytes);
    s.append(" B");
    s
}

// ---------------------------------------------------------------------------
// Order
// ---------------------------------------------------------------------------

/// The order of texts: by their first characters, and where those are the same
/// by the rest. A text goes before those that it begins.
pub open spec fn text_le(a: Seq<char>, b: Seq<char>) -> bool
    decreases a.len(),
{
    if a.len() == 0 {
        true
    } else if b.len() == 0 {
        false
    } else if a[0] != b[0] {
        a[0] < b[0]
    } else {
        text_le(a.drop_first(), b.drop_first())
    }
}

/// The order of entries: by name, or directories before files and both by name.
pub open spec fn entry_le(a: EntryView, b: EntryView, dirs_first: bool) -> bool {
    if dirs_first && a.is_dir != b.is_dir {
        a.is_dir
    } else {
        text_le(a.name, b.name)
    }
}

/// Entries in order with one more among them, behind those it does not go
/// before.
pub open spec fn with_entry(s: Seq<EntryView>, e: EntryView, dirs_first: bool) -> Seq<EntryView>
    decreases s.len(),
{
    if s.len() == 0 || entry_le(s.last(), e, dirs_first) {
        s.push(e)
    } else {
        with_entry(s.drop_last(), e, dirs_first).push(s.last())
    }
}

/// Entries put in order.
pub open spec fn in_order(s: Seq<EntryView>, dirs_first: bool) -> Seq<EntryView>
    decreases s.len(),
{
    if s.len() == 0 {
        s
    } else {
        with_entry(in_order(s.drop_last(), dirs_first), s.last(), dirs_first)
    }
}

proof fn lemma_text_le_total(a: Seq<char>, b: Seq<char>)
    ensures
        text_le(a, b) || text_le(b, a),
    decreases a.len(),
{
    if a.len() > 0 && b.len() > 0 && a[0] == b[0] {
        lemma_text_le_total(a.drop_first(), b.drop_first());
    }
}

proof fn lemma_text_le_transitive(a: Seq<char>, b: Seq<char>, c: Seq<char>)
    requires
        text_le(a, b),
        text_le(b, c),
    ensures
        text_le(a, c),
    decreases a.len(),
{
    if a.len() > 0 && b.len() > 0 && c.len() > 0 && a[0] == b[0] && b[0] == c[0] {
        lemma_text_le_transitive(a.drop_first(), b.drop_first(), c.drop_first());
    }
}

/// Each entry goes before those behind it.
pub open spec fn ordered(s: Seq<EntryView>, dirs_first: bool) -> bool {
    forall|i: int, j: int|
        0 <= i < j < s.len() ==> entry_le(#[trigger] s[i], #[trigger] s[j], dirs_first)
}

proof fn lemma_with_entry(s: Seq<EntryView>, e: EntryView, dirs_first: bool)
    requires
        ordered(s, dirs_first),
    ensures
        ordered(with_entry(s, e, dirs_first), dirs_first),
        with_entry(s, e, dirs_first).to_multiset() == s.to_multiset().insert(e),
        with_entry(s, e, dirs_first).len() == s.len() + 1,
        forall|x: EntryView| #[trigger]
            with_entry(s, e, dirs_first).contains(x) ==> x == e || s.contains(x),
    decreases s.len(),
{
    broadcast use vstd::seq_lib::group_to_multiset_ensures;

    let r = with_entry(s, e, dirs_first);
    if s.len() == 0 || entry_le(s.last(), e, dirs_first) {
        assert forall|i: int, j: int| 0 <= i < j < r.len() implies entry_le(
            #[trigger] r[i],
            #[trigger] r[j],
            dirs_first,
        ) by {
            if j == s.len() && i < s.len() - 1 {
                assert(entry_le(s[i], s[s.len() - 1], dirs_first));
                lemma_entry_le_transitive(s[i], s.last(), e, dirs_first);
            }
        }
        assert forall|x: EntryView| #[trigger] r.contains(x) implies x == e || s.contains(x) by {
            let k = choose|k: int| 0 <= k < r.len() && r[k] == x;
            if k < s.len() {
                assert(s[k] == x);
            }
        }
    } else {
        let rest = s.drop_last();
        let inner = with_entry(rest, e, dirs_first);
        assert(ordered(rest, dirs_first)) by {
            assert forall|i: int, j: int| 0 <= i < j < rest.len() implies entry_le(
                #[trigger] rest[i],
                #[trigger] rest[j],
                dirs_first,
            ) by {
                assert(rest[i] == s[i] && rest[j] == s[j]);
            }
        }
        lemma_with_entry(rest, e, dirs_first);
        assert(entry_le(e, s.last(), dirs_first)) by {
            lemma_entry_le_total(e, s.last(), dirs_first);
        }
        assert forall|i: int, j: int| 0 <= i < j < r.len() implies entry_le(
            #[trigger] r[i],
            #[trigger] r[j],
            dirs_first,
        ) by {
            if j == r.len() - 1 {
                assert(r[j] == s.last());
                assert(r[i] == inner[i]);
                assert(inner.contains(inner[i]));
                if inner[i] != e {
                    let k = choose|k: int| 0 <= k < rest.len() && rest[k] == inner[i];
                    assert(s[k] == inner[i]);
                    assert(entry_le(s[k], s[s.len() - 1], dirs_first));
                }
            } else {
                assert(r[i] == inner[i] && r[j] == inner[j]);
            }
        }
        assert(s =~= rest.push(s.last()));
        assert(r.to_multiset() =~= s.to_multiset().insert(e));
        assert forall|x: EntryView| #[trigger] r.contains(x) implies x == e || s.contains(x) by {
            let k = choose|k: int| 0 <= k < r.len() && r[k] == x;
            if k < inner.len() {
                assert(inner[k] == x);
                assert(inner.contains(x));
                if x != e {
                    let m = choose|m: int| 0 <= m < rest.len() && rest[m] == x;
                    assert(s[m] == x);
                }
            } else {
                assert(s[s.len() - 1] == x);
            }
        }
    }
}

proof fn lemma_entry_le_total(a: EntryView, b: EntryView, dirs_first: bool)
    ensures
        entry_le(a, b, dirs_first) || entry_le(b, a, dirs_first),
{
    lemma_text_le_total(a.name, b.name);
}

proof fn lemma_entry_le_transitive(a: EntryView, b: EntryView, c: EntryView, dirs_first: bool)
    requires
        entry_le(a, b, dirs_first),
        entry_le(b, c, dirs_first),
    ensures
        entry_le(a, c, dirs_first),
{
    if !(dirs_first && (a.is_dir != b.is_dir || b.is_dir != c.is_dir)) {
        lemma_text_le_transitive(a.name, b.name, c.name);
    }
}

/// Putting entries in order leaves them in order, and neither loses nor gains
/// any.
pub proof fn lemma_in_order(s: Seq<EntryView>, dirs_first: bool)
    ensures
        ordered(in_order(s, dirs_first), dirs_first),
        in_order(s, dirs_first).to_multiset() == s.to_multiset(),
    decreases s.len(),
{
    broadcast use vstd::seq_lib::group_to_multiset_ensures;

    if s.len() > 0 {
        lemma_in_order(s.drop_last(), dirs_first);
        lemma_with_entry(in_order(s.drop_last(), dirs_first), s.last(), dirs_first);
        assert(s =~= s.drop_last().push(s.last()));
    }
}

/// Decides [`text_le`].
fn le_text(a: &str, b: &str) -> (r: bool)
    ensures
        r == text_le(a@, b@),
{
    let x = text::chars_of(a);
    let y = text::chars_of(b);
    let mut i: usize = 0;
    proof {
        assert(a@.skip(0) =~= a@);
        assert(b@.skip(0) =~= b@);
    }
    loop
        invariant
            i <= x@.len(),
            i <= y@.len(),
            x@ == a@,
            y@ == b@,
            text_le(a@, b@) == text_le(a@.skip(i as int), b@.skip(i as int)),
        decreases x@.len() - i,
    {
        if i == x.len() {
            return true;
        }
        if i == y.len() {
            return false;
        }
        assert(a@.skip(i as int)[0] == x@[i as int]);
        assert(b@.skip(i as int)[0] == y@[i as int]);
        if x[i] != y[i] {
            return x[i] < y[i];
        }
        assert(a@.skip(i as int).drop_first() =~= a@.skip(i + 1));
        assert(b@.skip(i as int).drop_first() =~= b@.skip(i + 1));
        i = i + 1;
    }
}

fn le_entry(a: &DirEntry, b: &DirEntry, dirs_first: bool) -> (r: bool)
    ensures
        r == entry_le(a@, b@, dirs_first),
{
    if dirs_first && a.is_dir != b.is_dir {
        a.is_dir
    } else {
        le_text(a.name.as_str(), b.name.as_str())
    }
}

/// Adds an entry to entries in order.
fn add_entry(v: &mut Vec<DirEntry>, e: DirEntry, dirs_first: bool)
    ensures
        entry_views(final(v)@) == with_entry(entry_views(old(v)@), e@, dirs_first),
{
    let ghost s = entry_views(v@);
    let ghost before = v@;
    let mut i: usize = v.len();
    proof {
        assert(s.take(i as int) =~= s);
        assert(with_entry(s, e@, dirs_first) + s.skip(i as int) =~= with_entry(
            s,
            e@,
            dirs_first,
        ));
    }
    while i > 0 && !le_entry(&v[i - 1], &e, dirs_first)
        invariant
            i <= v@.len(),
            v@ == before,
            s == entry_views(before),
            with_entry(s.take(i as int), e@, dirs_first) + s.skip(i as int) == with_entry(
                s,
                e@,
                dirs_first,
            ),
        decreases i,
    {
        proof {
            let t = s.take(i as int);
            assert(t.last() == v@[i - 1]@);
            assert(t.drop_last() =~= s.take(i - 1));
            assert(s.skip(i - 1) =~= seq![t.last()] + s.skip(i as int));
            assert(with_entry(s.take(i - 1), e@, dirs_first) + s.skip(i - 1) =~= with_entry(
                t,
                e@,
                dirs_first,
            ) + s.skip(i as int));
        }
        i = i - 1;
    }
    let ghost w = e@;
    proof {
        let t = s.take(i as int);
        if i > 0 {
            assert(t.last() == v@[i - 1]@);
        }
        assert(with_entry(t, w, dirs_first) =~= t.push(w));
        assert(t.push(w) + s.skip(i as int) =~= s.insert(i as int, w));
    }
    v.insert(i, e);
    assert(entry_views(v@) =~= s.insert(i as int, w));
}

/// Puts entries in order.
pub fn sort_entries(entries: Vec<DirEntry>, dirs_first: bool) -> (r: Vec<DirEntry>)
    ensures
        entry_views(r@) == in_order(entry_views(entries@), dirs_first),
{
    let ghost all = entry_views(entries@);
    let mut rest = entries;
    let mut kept: Vec<DirEntry> = Vec::new();
    // Taken from the front, so that equal entries keep their order.
    let ghost mut n: int = 0;
    proof {
        assert(entry_views(kept@) =~= Seq::empty());
        assert(all.take(0) =~= Seq::empty());
        assert(all.skip(0) =~= all);
    }
    while rest.len() > 0
        invariant
            0 <= n,
            n + rest@.len() == all.len(),
            entry_views(rest@) == all.skip(n),
            entry_views(kept@) == in_order(all.take(n), dirs_first),
        decreases rest@.len(),
    {
        let ghost was = rest@;
        let e = rest.remove(0);
        proof {
            assert(was[0]@ == all.skip(n)[0]);
            assert(entry_views(rest@) =~= all.skip(n + 1)) by {
                assert forall|k: int| 0 <= k < rest@.len() implies entry_views(rest@)[k]
                    == all.skip(n + 1)[k] by {
                    assert(rest@[k] == was[k + 1]);
                    assert(entry_views(was)[k + 1] == all.skip(n)[k + 1]);
                }
            }
            let t = all.take(n + 1);
            assert(t.last() == e@);
            assert(t.drop_last() =~= all.take(n));
        }
        add_entry(&mut kept, e, dirs_first);
        proof {
            n = n + 1;
        }
    }
    assert(all.take(n) =~= all);
    kept
}

/// Texts are ordered as in a dictionary: by the first character in which they
/// differ, and the shorter first where there is none.
pub proof fn lemma_text_order(p: Seq<char>, c: char, x: Seq<char>, d: char, y: Seq<char>)
    ensures
        c < d ==> text_le(p + (seq![c] + x), p + (seq![d] + y)) && !text_le(
            p + (seq![d] + y),
            p + (seq![c] + x),
        ),
        text_le(p, p + x),
        x.len() > 0 ==> !text_le(p + x, p),
    decreases p.len(),
{
    if p.len() == 0 {
        assert(p + (seq![c] + x) =~= seq![c] + x);
        assert(p + (seq![d] + y) =~= seq![d] + y);
        assert(p + x =~= x);
    } else {
        let rest = p.drop_first();
        lemma_text_order(rest, c, x, d, y);
        assert((p + (seq![c] + x)).drop_first() =~= rest + (seq![c] + x));
        assert((p + (seq![d] + y)).drop_first() =~= rest + (seq![d] + y));
        assert((p + x).drop_first() =~= rest + x);
    }
}

/// Entries are ordered by name; where directories go first, every directory
/// goes before every file.
pub proof fn lemma_entry_order(a: EntryView, b: EntryView)
    ensures
        entry_le(a, b, false) == text_le(a.name, b.name),
        a.is_dir == b.is_dir ==> entry_le(a, b, true) == text_le(a.name, b.name),
        a.is_dir && !b.is_dir ==> entry_le(a, b, true) && !entry_le(b, a, true),
{
}

/// A number of units is given with one decimal, which is the nearest there is:
/// it is off by no more than half a tenth, as long as the number of bytes is below
/// 2 to the power of 53. A number half way between goes to the even tenth.
pub proof fn lemma_scaled(bytes: u64, divisor: u64, unit: Seq<char>)
    requires
        divisor > 0,
        bytes < 0x20_0000_0000_0000,
    ensures
        ({
            let t = tenths(bytes, divisor) as int;
            &&& scaled(bytes, divisor, unit) == text::decimal((t / 10) as nat) + seq!['.']
                + text::decimal((t % 10) as nat) + seq![' '] + unit
            &&& 2 * (10 * bytes - t * divisor) <= divisor
            &&& 2 * (t * divisor - 10 * bytes) <= divisor
            &&& (2 * (10 * bytes - t * divisor) == divisor || 2 * (t * divisor - 10 * bytes)
                == divisor) ==> t % 2 == 0
        }),
{
    reveal_strlit(".");
    reveal_strlit(" ");
    assert("."@ =~= seq!['.']);
    assert(" "@ =~= seq![' ']);
    assert(step_from(bytes as nat, 1) == 1);
    assert(nearest(bytes as nat, 1) == bytes);
    let n = 10 * bytes as nat;
    let d = divisor as int;
    vstd::arithmetic::div_mod::lemma_fundamental_div_mod(n as int, d);
    let q = n as int / d;
    let t = tenths(bytes, divisor) as int;
    assert(to_53_digits(bytes as nat) == bytes);
    assert(q * d == d * q && (q + 1) * d == d * q + d) by (nonlinear_arith);
    assert(t == q || t == q + 1);
}

proof fn lemma_step(n: nat, step: nat)
    requires
        step >= 1,
        step > 1 ==> step % 2 == 0 && n >= 0x10_0000_0000_0000 * step,
    ensures
        ({
            let r = step_from(n, step);
            &&& r >= 1
            &&& n < 0x20_0000_0000_0000 * r
            &&& r > 1 ==> r % 2 == 0 && n >= 0x10_0000_0000_0000 * r
        }),
    decreases n - step,
{
    if n >= 0x20_0000_0000_0000 * step {
        lemma_step(n, 2 * step);
    }
}

/// To 53 binary digits a number is a multiple of some step, and no other multiple
/// of it is nearer; the step is the least of those that leave 53 digits.
pub proof fn lemma_53_digits(n: nat)
    ensures
        ({
            let step = step_from(n, 1) as int;
            let r = to_53_digits(n) as int;
            &&& n < 0x20_0000_0000_0000 * step
            &&& step > 1 ==> n >= 0x10_0000_0000_0000 * step
            &&& r % step == 0
            &&& 2 * (r - n) <= step
            &&& 2 * (n - r) <= step
        }),
{
    lemma_step(n, 1);
    let step = step_from(n, 1) as int;
    let q = n as int / step;
    vstd::arithmetic::div_mod::lemma_fundamental_div_mod(n as int, step);
    let k = nearest(n, step as nat) as int;
    let r = to_53_digits(n) as int;
    assert(q * step == step * q && (q + 1) * step == step * q + step) by (nonlinear_arith);
    assert(k == q || k == q + 1);
    assert(r == k * step);
    vstd::arithmetic::div_mod::lemma_mod_multiples_basic(k, step);
}

/// Entries that are in order already stay as they are, those that nothing tells
/// apart among them.
pub proof fn lemma_order_kept(s: Seq<EntryView>, dirs_first: bool)
    requires
        ordered(s, dirs_first),
    ensures
        in_order(s, dirs_first) == s,
    decreases s.len(),
{
    if s.len() > 0 {
        let rest = s.drop_last();
        assert forall|i: int, j: int| 0 <= i < j < rest.len() implies entry_le(
            #[trigger] rest[i],
            #[trigger] rest[j],
            dirs_first,
        ) by {
            assert(rest[i] == s[i] && rest[j] == s[j]);
        }
        lemma_order_kept(rest, dirs_first);
        if rest.len() > 0 {
            assert(entry_le(s[s.len() - 2], s[s.len() - 1], dirs_first));
        }
        assert(rest.push(s.last()) =~= s);
    }
}

} // verus!
