//! Circuit statistics and resource estimates: gate counts, depth, the
//! memory a state-vector simulation needs and an estimate of hardware time.
use vstd::prelude::*;
use crate::circuit::{distinct_below, lemma_distinct_covers, Circuit, CircuitView, PlacedGateView, is_max_column};
use crate::seqs::{first_match, lemma_first_match, lemma_first_match_at, lemma_first_match_none};
use crate::gate::{GateType, spec_display_name};
use crate::format::qasm::angle_views;
use crate::text::{decimal, digit_char, push_decimal};

verus! {

/// `2^n`.
pub open spec fn pow2(n: nat) -> nat
    decreases n,
{
    if n == 0 { 1 } else { 2 * pow2((n - 1) as nat) }
}

/// Bytes a state vector of `n` qubits takes: `2^n` amplitudes of 16 bytes,
/// or `usize::MAX` from 64 qubits on.
pub open spec fn state_vector_bytes(n: nat) -> nat {
    if n >= 64 { usize::MAX as nat } else { pow2(n) * 16 }
}

/// Estimated memory for simulating `num_qubits` qubits as a state vector.
/// From 64 qubits on the estimate saturates at `usize::MAX`.
pub fn estimate_state_vector_memory_bytes(num_qubits: usize) -> (bytes: usize)
    requires
        num_qubits >= 64 || pow2(num_qubits as nat) * 16 <= usize::MAX,
    ensures
        bytes == state_vector_bytes(num_qubits as nat),
{
    if num_qubits >= 64 {
        return usize::MAX;
    }
    let mut p: usize = 1;
    let mut i: usize = 0;
    while i < num_qubits
        invariant
            i <= num_qubits < 64,
            p == pow2(i as nat),
            pow2(num_qubits as nat) * 16 <= usize::MAX,
        decreases num_qubits - i,
    {
        proof { lemma_pow2_mono((i + 1) as nat, num_qubits as nat); }
        p = p * 2;
        i = i + 1;
    }
    p * 16
}

pub proof fn lemma_pow2_mono(a: nat, b: nat)
    requires
        a <= b,
    ensures
        pow2(a) <= pow2(b),
        pow2(a) >= 1,
    decreases b,
{
    if b > a {
        lemma_pow2_mono(a, (b - 1) as nat);
    } else if a > 0 {
        lemma_pow2_mono((a - 1) as nat, (a - 1) as nat);
    }
}

/// `n / d` rounded to the nearest integer, ties to the even one.
pub open spec fn round_div_even(n: nat, d: nat) -> nat {
    let q = n / d;
    let r = n % d;
    if 2 * r > d || (2 * r == d && q % 2 == 1) { q + 1 } else { q }
}

/// Number of binary digits of `b`.
pub open spec fn bit_length(b: nat) -> nat
    decreases b,
{
    if b == 0 { 0 } else { 1 + bit_length(b / 2) }
}

/// How many low bits of `b` fall outside a 53-bit mantissa.
pub open spec fn excess_bits(b: nat) -> nat {
    if bit_length(b) > 53 { (bit_length(b) - 53) as nat } else { 0 }
}

pub proof fn lemma_bit_length_bound(x: nat, k: nat)
    requires
        x < pow2(k),
    ensures
        bit_length(x) <= k,
    decreases k,
{
    if x > 0 {
        assert(k > 0);
        lemma_bit_length_bound(x / 2, (k - 1) as nat);
    }
}

/// The integer nearest to `b` that an `f64` holds (ties to even).
pub open spec fn f64_value(b: nat) -> nat {
    round_div_even(b, pow2(excess_bits(b))) * pow2(excess_bits(b))
}

/// The text of a byte count: `"{:.1} GB"`, `"{:.1} MB"`, `"{:.0} KB"` of
/// the count as a floating-point number of units (ties to even), or `"{} B"`.
pub open spec fn memory_text(bytes: nat) -> Seq<char> {
    if bytes >= 0x4000_0000 {
        let t = round_div_even(10 * f64_value(bytes), 0x4000_0000);
        decimal(t / 10) + seq!['.', digit_char(t % 10)] + " GB"@
    } else if bytes >= 0x10_0000 {
        let t = round_div_even(10 * bytes, 0x10_0000);
        decimal(t / 10) + seq!['.', digit_char(t % 10)] + " MB"@
    } else if bytes >= 1024 {
        decimal(round_div_even(bytes, 1024)) + " KB"@
    } else {
        decimal(bytes) + " B"@
    }
}

fn round_div_even_exec(n: u128, d: u128) -> (r: u128)
    requires
        0 < d <= 0x1_0000_0000_0000_0000,
        n < 0x8000_0000_0000_0000_0000_0000_0000_0000,
    ensures
        r == round_div_even(n as nat, d as nat),
        r <= n / d + 1,
{
    let q = n / d;
    let rem = n % d;
    if 2 * rem > d || (2 * rem == d && q % 2 == 1) { q + 1 } else { q }
}

proof fn lemma_pow2_11()
    ensures
        pow2(11) == 2048,
{
    reveal_with_fuel(pow2, 12);
}

proof fn lemma_pow2_64()
    ensures
        pow2(64) == 0x1_0000_0000_0000_0000,
{
    lemma_pow2_11();
    assert(pow2(22) == 2048 * 2048) by {
        lemma_pow2_add(11, 11);
    }
    assert(pow2(44) == 2048 * 2048 * 2048 * 2048) by {
        lemma_pow2_add(22, 22);
    }
    assert(pow2(64) == pow2(44) * pow2(20)) by {
        lemma_pow2_add(44, 20);
    }
    assert(pow2(20) == 0x10_0000) by {
        lemma_pow2_add(11, 9);
        reveal_with_fuel(pow2, 10);
    }
}

proof fn lemma_pow2_add(a: nat, b: nat)
    ensures
        pow2(a + b) == pow2(a) * pow2(b),
    decreases b,
{
    if b == 0 {
        assert(pow2(0) == 1);
        assert(a + b == a);
    } else {
        lemma_pow2_add(a, (b - 1) as nat);
        assert((a + b - 1) as nat == a + (b - 1) as nat);
        assert(pow2(a + b) == 2 * pow2((a + b - 1) as nat));
        assert(pow2(b) == 2 * pow2((b - 1) as nat));
        assert(pow2(a) * (2 * pow2((b - 1) as nat)) == 2 * (pow2(a) * pow2((b - 1) as nat))) by (nonlinear_arith);
    }
}

fn f64_value_exec(b: u64) -> (r: u128)
    ensures
        r == f64_value(b as nat),
        r <= b + 2048,
{
    proof {
        lemma_pow2_64();
        lemma_bit_length_bound(b as nat, 64);
    }
    let mut m: u64 = b;
    let mut len: usize = 0;
    while m > 0
        invariant
            bit_length(b as nat) == len + bit_length(m as nat),
            bit_length(b as nat) <= 64,
        decreases m,
    {
        m = m / 2;
        len = len + 1;
    }
    let s: usize = if len > 53 { len - 53 } else { 0 };
    let mut p: u128 = 1;
    let mut i: usize = 0;
    while i < s
        invariant
            i <= s <= 11,
            p == pow2(i as nat),
        decreases s - i,
    {
        proof { lemma_pow2_mono((i + 1) as nat, 11); lemma_pow2_11(); }
        p = p * 2;
        i = i + 1;
    }
    proof {
        lemma_pow2_mono(s as nat, 11);
        lemma_pow2_11();
    }
    let q = round_div_even_exec(b as u128, p);
    proof {
        assert((b as nat) / (p as nat) <= b as nat) by (nonlinear_arith)
            requires p >= 1;
        assert(q * p <= b + 2048) by (nonlinear_arith)
            requires q <= (b as nat) / (p as nat) + 1, p <= 2048, p >= 1;
    }
    q * p
}

/// Formats a byte count as text in B, KB, MB or GB.
pub fn format_memory(bytes: usize) -> (s: String)
    ensures
        s@ == memory_text(bytes as nat),
{
    if bytes >= 0x4000_0000 {
        let v = f64_value_exec(bytes as u64);
        let t = round_div_even_exec(10 * v, 0x4000_0000);
        proof { reveal_strlit("."); }
        let mut s = String::new();
        push_decimal(&mut s, (t / 10) as usize);
        s.append(".");
        push_decimal(&mut s, (t % 10) as usize);
        s.append(" GB");
        assert(decimal((t % 10) as nat) == seq![digit_char((t % 10) as nat)]);
        assert(s@ =~= memory_text(bytes as nat));
        s
    } else if bytes >= 0x10_0000 {
        let t = round_div_even_exec(10 * (bytes as u128), 0x10_0000);
        proof { reveal_strlit("."); }
        let mut s = String::new();
        push_decimal(&mut s, (t / 10) as usize);
        s.append(".");
        push_decimal(&mut s, (t % 10) as usize);
        s.append(" MB");
        assert(decimal((t % 10) as nat) == seq![digit_char((t % 10) as nat)]);
        assert(s@ =~= memory_text(bytes as nat));
        s
    } else if bytes >= 1024 {
        let t = round_div_even_exec(bytes as u128, 1024);
        let mut s = String::new();
        push_decimal(&mut s, t as usize);
        s.append(" KB");
        s
    } else {
        let mut s = String::new();
        push_decimal(&mut s, bytes);
        s.append(" B");
        s
    }
}

/// How many gates of one display name a circuit has.
#[derive(Debug, Clone)]
pub struct GateCount {
    /// Display name of these gates.
    pub name: String,
    /// Number of gates with that name.
    pub count: usize,
}

/// Gate counts by display name, each name once, in order of first use.
#[derive(Debug)]
pub struct GateCounts {
    entries: Vec<GateCount>,
}

/// Model of a count entry.
pub open spec fn entry_view(e: GateCount) -> (Seq<char>, usize) {
    (e.name@, e.count)
}

/// The entry is for `name`.
pub open spec fn for_name(name: Seq<char>) -> spec_fn((Seq<char>, usize)) -> bool {
    |e: (Seq<char>, usize)| e.0 == name
}

/// `a` comes before `b` in code point order (the order of `String`).
pub open spec fn text_less(a: Seq<char>, b: Seq<char>) -> bool
    decreases a.len(),
{
    if b.len() == 0 {
        false
    } else if a.len() == 0 {
        true
    } else if a[0] != b[0] {
        (a[0] as int) < (b[0] as int)
    } else {
        text_less(a.drop_first(), b.drop_first())
    }
}

/// Entry `a` is listed before entry `b`: a larger count, or the same count
/// and a name earlier in code point order.
pub open spec fn shown_before(a: (Seq<char>, usize), b: (Seq<char>, usize)) -> bool {
    a.1 > b.1 || (a.1 == b.1 && text_less(a.0, b.0))
}

proof fn lemma_text_irrefl(a: Seq<char>)
    ensures
        !text_less(a, a),
    decreases a.len(),
{
    if a.len() > 0 {
        lemma_text_irrefl(a.drop_first());
    }
}

proof fn lemma_text_trans(a: Seq<char>, b: Seq<char>, c: Seq<char>)
    requires
        text_less(a, b),
        text_less(b, c),
    ensures
        text_less(a, c),
    decreases a.len(),
{
    if a.len() > 0 && b.len() > 0 && c.len() > 0 && a[0] == b[0] && b[0] == c[0] {
        lemma_text_trans(a.drop_first(), b.drop_first(), c.drop_first());
    }
}

proof fn lemma_text_total(a: Seq<char>, b: Seq<char>)
    requires
        a != b,
    ensures
        text_less(a, b) || text_less(b, a),
    decreases a.len(),
{
    if a.len() > 0 && b.len() > 0 && a[0] == b[0] {
        if a.drop_first() =~= b.drop_first() {
            assert forall|i: int| 0 <= i < a.len() implies a[i] == b[i] by {
                if i > 0 {
                    assert(a[i] == a.drop_first()[i - 1]);
                    assert(b[i] == b.drop_first()[i - 1]);
                }
            }
            assert(a =~= b);
        } else {
            lemma_text_total(a.drop_first(), b.drop_first());
        }
    } else if a.len() == 0 && b.len() == 0 {
        assert(a =~= b);
    } else if a.len() > 0 && b.len() > 0 {
        assert((a[0] as int) != (b[0] as int));
    }
}

proof fn lemma_shown_irrefl(a: (Seq<char>, usize))
    ensures
        !shown_before(a, a),
{
    lemma_text_irrefl(a.0);
}

proof fn lemma_shown_trans(a: (Seq<char>, usize), b: (Seq<char>, usize), c: (Seq<char>, usize))
    requires
        shown_before(a, b),
        shown_before(b, c),
    ensures
        shown_before(a, c),
{
    if a.1 == b.1 && b.1 == c.1 {
        lemma_text_trans(a.0, b.0, c.0);
    }
}

/// Whether `a` comes before `b` in code point order.
fn text_before(a: &str, b: &str) -> (r: bool)
    ensures
        r == text_less(a@, b@),
{
    let na = a.unicode_len();
    let nb = b.unicode_len();
    let mut i: usize = 0;
    assert(a@.skip(0) =~= a@);
    assert(b@.skip(0) =~= b@);
    while i < na && i < nb
        invariant
            i <= na,
            i <= nb,
            na == a@.len(),
            nb == b@.len(),
            text_less(a@, b@) == text_less(a@.skip(i as int), b@.skip(i as int)),
        decreases na - i,
    {
        let ca = a.get_char(i);
        let cb = b.get_char(i);
        assert(a@.skip(i as int)[0] == ca);
        assert(b@.skip(i as int)[0] == cb);
        if ca != cb {
            return (ca as u32) < (cb as u32);
        }
        assert(a@.skip(i as int).drop_first() =~= a@.skip(i as int + 1));
        assert(b@.skip(i as int).drop_first() =~= b@.skip(i as int + 1));
        i = i + 1;
    }
    i < nb
}

/// No two entries have the same name.
pub open spec fn names_distinct(es: Seq<(Seq<char>, usize)>) -> bool {
    forall|j: int, k: int| 0 <= j < k < es.len() ==> (#[trigger] es[j]).0 != (#[trigger] es[k]).0
}

/// The count recorded for `name` (0 when there is none).
pub open spec fn lookup(es: Seq<(Seq<char>, usize)>, name: Seq<char>) -> nat {
    match first_match(es, for_name(name)) {
        Some(j) => es[j].1 as nat,
        None => 0,
    }
}

/// How many of `names` are `name`.
pub open spec fn count_in(names: Seq<Seq<char>>, name: Seq<char>) -> nat
    decreases names.len(),
{
    if names.len() == 0 {
        0
    } else {
        count_in(names.drop_last(), name) + if names.last() == name { 1nat } else { 0nat }
    }
}

/// The display names of a circuit's gates; `angles[i]` renders gate `i`'s angle.
pub open spec fn gate_names(c: CircuitView, angles: Seq<Seq<char>>) -> Seq<Seq<char>> {
    Seq::new(c.gates.len(), |i: int| spec_display_name(c.gates[i].gate, angles[i]))
}

/// Nanoseconds a gate takes on typical hardware.
pub open spec fn gate_time_ns(g: GateType) -> nat {
    match g {
        GateType::H | GateType::X | GateType::Y | GateType::Z | GateType::S | GateType::T => 50,
        GateType::Rx(_) | GateType::Ry(_) | GateType::Rz(_) => 100,
        GateType::Cnot | GateType::Cz | GateType::Swap => 500,
        GateType::Toffoli => 2000,
        GateType::Barrier | GateType::Identity => 0,
        GateType::Custom(_) => 200,
    }
}

/// Total gate time of a list of gates.
pub open spec fn gates_time_ns(gs: Seq<PlacedGateView>) -> nat
    decreases gs.len(),
{
    if gs.len() == 0 { 0 } else { gates_time_ns(gs.drop_last()) + gate_time_ns(gs.last().gate) }
}

impl GateCounts {
    #[verifier::type_invariant]
    spec fn entries_valid(&self) -> bool {
        &&& forall|k: int| 0 <= k < self.entries@.len() ==> #[trigger] self.entries@[k].count > 0
        &&& names_distinct(self.entries@.map_values(|e: GateCount| entry_view(e)))
    }

    /// The entries as (name, count) pairs.
    pub closed spec fn view_entries(&self) -> Seq<(Seq<char>, usize)> {
        self.entries@.map_values(|e: GateCount| entry_view(e))
    }

    /// The count for `name`, or `None` when no gate has that name.
    pub fn get(&self, name: &str) -> (r: Option<&usize>)
        ensures
            r matches Some(c) ==> *c == lookup(self.view_entries(), name@) && *c > 0,
            r is None ==> lookup(self.view_entries(), name@) == 0,
    {
        proof { use_type_invariant(self); }
        let ghost es = self.view_entries();
        let ghost p = for_name(name@);
        let mut k: usize = 0;
        while k < self.entries.len()
            invariant
                k <= self.entries@.len(),
                es == self.view_entries(),
                p == for_name(name@),
                forall|j: int| 0 <= j < k ==> !p(#[trigger] es[j]),
                forall|j: int| 0 <= j < self.entries@.len() ==> #[trigger] self.entries@[j].count > 0,
            decreases self.entries.len() - k,
        {
            assert(es[k as int] == entry_view(self.entries@[k as int]));
            if self.entries[k].name.as_str().unicode_len() == name.unicode_len() && same_text(self.entries[k].name.as_str(), name) {
                proof { lemma_first_match_at(es, p, k as int); }
                return Some(&self.entries[k].count);
            }
            k = k + 1;
        }
        proof { lemma_first_match_none(es, p); }
        None
    }

    /// Whether no gate is counted.
    pub fn is_empty(&self) -> (b: bool)
        ensures
            b == (self.view_entries().len() == 0),
    {
        self.entries.len() == 0
    }

    /// Number of distinct names.
    pub fn len(&self) -> (n: usize)
        ensures
            n == self.view_entries().len(),
    {
        self.entries.len()
    }

    /// The entries as the panel lists them: largest count first, equal
    /// counts by name (see `shown_before`).
    pub fn for_display(&self) -> (r: Vec<GateCount>)
        ensures
            r@.len() == self.view_entries().len(),
            forall|a: int, b: int| 0 <= a < b < r@.len() ==> shown_before(entry_view(#[trigger] r@[a]), entry_view(#[trigger] r@[b])),
            forall|k: int| 0 <= k < r@.len() ==> self.view_entries().contains(entry_view(#[trigger] r@[k])),
            forall|k: int| 0 <= k < self.view_entries().len() ==> r@.map_values(|e: GateCount| entry_view(e)).contains(#[trigger] self.view_entries()[k]),
    {
        proof { use_type_invariant(self); }
        let ghost es = self.view_entries();
        let mut ord: Vec<usize> = Vec::new();
        let mut i: usize = 0;
        while i < self.entries.len()
            invariant
                i <= self.entries@.len(),
                es == self.view_entries(),
                names_distinct(es),
                ord@.len() == i,
                forall|k: int| 0 <= k < ord@.len() ==> (#[trigger] ord@[k]) < i,
                forall|a: int, b: int| 0 <= a < b < ord@.len() ==> shown_before(es[#[trigger] ord@[a] as int], es[#[trigger] ord@[b] as int]),
            decreases self.entries.len() - i,
        {
            assert(es[i as int] == entry_view(self.entries@[i as int]));
            let mut pos: usize = 0;
            while pos < ord.len() && !self.before(i, ord[pos])
                invariant
                    pos <= ord@.len(),
                    i < self.entries@.len(),
                    es == self.view_entries(),
                    forall|k: int| 0 <= k < ord@.len() ==> (#[trigger] ord@[k]) < i,
                    forall|k: int| 0 <= k < pos ==> !shown_before(es[i as int], es[(#[trigger] ord@[k]) as int]),
                decreases ord@.len() - pos,
            {
                pos = pos + 1;
            }
            proof {
                assert forall|k: int| 0 <= k < pos implies shown_before(es[(#[trigger] ord@[k]) as int], es[i as int]) by {
                    let j = ord@[k] as int;
                    assert(es[j].0 != es[i as int].0);
                    lemma_text_total(es[j].0, es[i as int].0);
                }
                if pos < ord@.len() {
                    assert forall|k: int| pos <= k < ord@.len() implies shown_before(es[i as int], es[(#[trigger] ord@[k]) as int]) by {
                        if k > pos {
                            assert(shown_before(es[ord@[pos as int] as int], es[ord@[k] as int]));
                            lemma_shown_trans(es[i as int], es[ord@[pos as int] as int], es[ord@[k] as int]);
                        }
                    }
                }
            }
            let ghost before = ord@;
            ord.insert(pos, i);
            proof {
                assert(ord@ == before.insert(pos as int, i));
                assert forall|a: int, b: int| 0 <= a < b < ord@.len() implies
                    shown_before(es[#[trigger] ord@[a] as int], es[#[trigger] ord@[b] as int]) by {
                    if a < pos as int && b < pos as int {
                        assert(shown_before(es[before[a] as int], es[before[b] as int]));
                    } else if a < pos as int && b > pos as int {
                        assert(shown_before(es[before[a] as int], es[before[b - 1] as int]));
                    } else if a > pos as int {
                        assert(shown_before(es[before[a - 1] as int], es[before[b - 1] as int]));
                    }
                }
            }
            i = i + 1;
        }
        proof {
            assert(distinct_below(ord@, es.len())) by {
                assert forall|x: int, y: int| 0 <= x < y < ord@.len() implies ord@[x] != ord@[y] by {
                    assert(shown_before(es[ord@[x] as int], es[ord@[y] as int]));
                    lemma_shown_irrefl(es[ord@[x] as int]);
                }
            }
            lemma_distinct_covers(ord@, es.len());
        }
        let mut r: Vec<GateCount> = Vec::new();
        let mut k: usize = 0;
        while k < ord.len()
            invariant
                k <= ord@.len(),
                ord@.len() == es.len(),
                es == self.view_entries(),
                forall|j: int| 0 <= j < ord@.len() ==> (#[trigger] ord@[j]) < es.len(),
                r@.len() == k,
                forall|j: int| 0 <= j < k ==> entry_view(#[trigger] r@[j]) == es[ord@[j] as int],
            decreases ord@.len() - k,
        {
            let e = &self.entries[ord[k]];
            assert(es[ord@[k as int] as int] == entry_view(self.entries@[ord@[k as int] as int]));
            r.push(GateCount { name: e.name.clone(), count: e.count });
            k = k + 1;
        }
        proof {
            let rv = r@.map_values(|e: GateCount| entry_view(e));
            assert forall|x: int| 0 <= x < es.len() implies rv.contains(#[trigger] es[x]) by {
                assert(ord@.contains(x as usize));
                let j = choose|j: int| 0 <= j < ord@.len() && ord@[j] == x as usize;
                assert(rv[j] == es[x]);
            }
            assert forall|j: int| 0 <= j < r@.len() implies es.contains(entry_view(#[trigger] r@[j])) by {
                assert(es[ord@[j] as int] == entry_view(r@[j]));
            }
        }
        r
    }

    /// Whether entry `i` is listed before entry `j`.
    fn before(&self, i: usize, j: usize) -> (b: bool)
        requires
            i < self.entries@.len(),
            j < self.entries@.len(),
        ensures
            b == shown_before(self.view_entries()[i as int], self.view_entries()[j as int]),
    {
        let a = &self.entries[i];
        let c = &self.entries[j];
        assert(self.view_entries()[i as int] == entry_view(self.entries@[i as int]));
        assert(self.view_entries()[j as int] == entry_view(self.entries@[j as int]));
        a.count > c.count || (a.count == c.count && text_before(a.name.as_str(), c.name.as_str()))
    }

    /// The entries, in order of first use.
    pub fn entries(&self) -> (v: &Vec<GateCount>)
        ensures
            v@.map_values(|e: GateCount| entry_view(e)) == self.view_entries(),
    {
        &self.entries
    }
}

fn same_text(a: &str, b: &str) -> (r: bool)
    ensures
        r == (a@ == b@),
{
    let n = a.unicode_len();
    if n != b.unicode_len() {
        return false;
    }
    let mut k: usize = 0;
    while k < n
        invariant
            k <= n,
            n == a@.len(),
            n == b@.len(),
            forall|j: int| 0 <= j < k ==> a@[j] == b@[j],
        decreases n - k,
    {
        if a.get_char(k) != b.get_char(k) {
            return false;
        }
        k = k + 1;
    }
    assert(a@ =~= b@);
    true
}

proof fn lemma_first_match_same<A>(s1: Seq<A>, s2: Seq<A>, p: spec_fn(A) -> bool)
    requires
        s1.len() == s2.len(),
        forall|i: int| 0 <= i < s1.len() ==> p(#[trigger] s1[i]) == p(s2[i]),
    ensures
        first_match(s1, p) == first_match(s2, p),
    decreases s1.len(),
{
    if s1.len() > 0 {
        lemma_first_match_same(s1.drop_last(), s2.drop_last(), p);
        assert(p(s1[s1.len() - 1]) == p(s2[s2.len() - 1]));
    }
}

/// Circuit statistics summary.
#[derive(Debug)]
pub struct CircuitStats {
    /// Number of qubits in the circuit.
    pub num_qubits: usize,
    /// Total number of gates (excluding measurements).
    pub total_gates: usize,
    /// Number of measurements.
    pub num_measurements: usize,
    /// Circuit depth (largest column used).
    pub depth: usize,
    /// Gate counts by display name.
    pub gate_counts: GateCounts,
    /// Estimated memory for state-vector simulation.
    pub memory_bytes: usize,
    /// Estimated execution time on typical hardware, in nanoseconds.
    pub hardware_time_estimate_ns: u128,
}

impl CircuitStats {
    /// Computes the statistics of a circuit; `angles[i]` renders the angle
    /// of gate `i` for its display name (two decimals).
    pub fn from_circuit(circuit: &Circuit, angles: &Vec<String>) -> (st: CircuitStats)
        requires
            angles@.len() == circuit.gates@.len(),
            circuit.qubits@.len() >= 64 || pow2(circuit.qubits@.len()) * 16 <= usize::MAX,
        ensures
            st.num_qubits == circuit.qubits@.len(),
            st.total_gates == circuit.gates@.len(),
            st.num_measurements == circuit.measurements@.len(),
            is_max_column(circuit@, st.depth),
            st.memory_bytes == state_vector_bytes(circuit.qubits@.len()),
            st.hardware_time_estimate_ns == gates_time_ns(circuit@.gates) + 1000 * circuit.measurements@.len(),
            forall|name: Seq<char>| lookup(st.gate_counts.view_entries(), name)
                == #[trigger] count_in(gate_names(circuit@, angle_views(angles@)), name),
            names_distinct(st.gate_counts.view_entries()),
            forall|k: int| 0 <= k < st.gate_counts.view_entries().len() ==> #[trigger] st.gate_counts.view_entries()[k].1 > 0,
    {
        let ghost names = gate_names(circuit@, angle_views(angles@));
        let mut entries: Vec<GateCount> = Vec::new();
        let mut time: u128 = 0;
        let mut i: usize = 0;
        while i < circuit.gates.len()
            invariant
                i <= circuit.gates@.len(),
                angles@.len() == circuit.gates@.len(),
                names == gate_names(circuit@, angle_views(angles@)),
                forall|name: Seq<char>| lookup(entries@.map_values(|e: GateCount| entry_view(e)), name)
                    == #[trigger] count_in(names.take(i as int), name),
                forall|k: int| 0 <= k < entries@.len() ==> #[trigger] entries@[k].count > 0 && entries@[k].count <= i,
                names_distinct(entries@.map_values(|e: GateCount| entry_view(e))),
                time == gates_time_ns(circuit@.gates.take(i as int)),
                time <= 2000 * i,
            decreases circuit.gates.len() - i,
        {
            let ghost es = entries@.map_values(|e: GateCount| entry_view(e));
            let name = circuit.gates[i].gate.display_name(angles[i].as_str());
            assert(names[i as int] == name@);
            assert(names.take(i as int + 1).drop_last() =~= names.take(i as int));
            assert(circuit@.gates.take(i as int + 1).drop_last() =~= circuit@.gates.take(i as int));
            let ghost p = for_name(name@);
            let mut k: usize = 0;
            let mut found = false;
            while k < entries.len() && !found
                invariant
                    k <= entries@.len(),
                    es == entries@.map_values(|e: GateCount| entry_view(e)),
                    p == for_name(name@),
                    !found ==> forall|j: int| 0 <= j < k ==> !p(#[trigger] es[j]),
                    found ==> k < entries@.len() && first_match(es, p) == Some(k as int),
                decreases entries@.len() - k + if found { 0int } else { 1int },
            {
                assert(es[k as int] == entry_view(entries@[k as int]));
                if same_text(entries[k].name.as_str(), name.as_str()) {
                    proof { lemma_first_match_at(es, p, k as int); }
                    found = true;
                } else {
                    k = k + 1;
                }
            }
            if found {
                let old_entry = entries.remove(k);
                entries.insert(k, GateCount { name: old_entry.name, count: old_entry.count + 1 });
                proof {
                    let es2 = entries@.map_values(|e: GateCount| entry_view(e));
                    assert(es2 =~= es.update(k as int, (es[k as int].0, (es[k as int].1 + 1) as usize)));
                    assert forall|j: int, l: int| 0 <= j < l < es2.len() implies (#[trigger] es2[j]).0 != (#[trigger] es2[l]).0 by {
                        assert(es2[j].0 == es[j].0 && es2[l].0 == es[l].0);
                    }
                    assert forall|nm: Seq<char>| lookup(es2, nm) == #[trigger] count_in(names.take(i as int + 1), nm) by {
                        lemma_first_match_same(es, es2, for_name(nm));
                        assert(names.take(i as int + 1).last() == name@);
                        assert(count_in(names.take(i as int + 1), nm) == count_in(names.take(i as int), nm) + if name@ == nm { 1nat } else { 0nat });
                        assert(lookup(es, nm) == count_in(names.take(i as int), nm));
                        lemma_first_match(es, for_name(nm));
                        lemma_first_match(es, for_name(name@));
                    }
                }
            } else {
                proof { lemma_first_match_none(es, p); }
                entries.push(GateCount { name, count: 1 });
                proof {
                    let es2 = entries@.map_values(|e: GateCount| entry_view(e));
                    assert(es2 =~= es.push((name@, 1usize)));
                    assert forall|j: int, l: int| 0 <= j < l < es2.len() implies (#[trigger] es2[j]).0 != (#[trigger] es2[l]).0 by {
                        if l == es.len() {
                            assert(!p(es[j]));
                        } else {
                            assert(es2[j] == es[j] && es2[l] == es[l]);
                        }
                    }
                    assert(es2.drop_last() =~= es);
                    assert forall|nm: Seq<char>| lookup(es2, nm) == #[trigger] count_in(names.take(i as int + 1), nm) by {
                        assert(es2.drop_last() =~= es);
                        assert(names.take(i as int + 1).last() == name@);
                        assert(count_in(names.take(i as int + 1), nm) == count_in(names.take(i as int), nm) + if name@ == nm { 1nat } else { 0nat });
                        assert(lookup(es, nm) == count_in(names.take(i as int), nm));
                        lemma_first_match(es, for_name(nm));
                    }
                }
            }
            let cost: u128 = match &circuit.gates[i].gate {
                GateType::H | GateType::X | GateType::Y | GateType::Z | GateType::S | GateType::T => 50,
                GateType::Rx(_) | GateType::Ry(_) | GateType::Rz(_) => 100,
                GateType::Cnot | GateType::Cz | GateType::Swap => 500,
                GateType::Toffoli => 2000,
                GateType::Barrier | GateType::Identity => 0,
                GateType::Custom(_) => 200,
            };
            time = time + cost;
            i = i + 1;
        }
        assert(names.take(circuit.gates@.len() as int) =~= names);
        assert(circuit@.gates.take(circuit.gates@.len() as int) =~= circuit@.gates);
        let m = circuit.measurements.len() as u128;
        time = time + 1000 * m;
        CircuitStats {
            num_qubits: circuit.num_qubits(),
            total_gates: circuit.gates.len(),
            num_measurements: circuit.measurements.len(),
            depth: circuit.max_column(),
            gate_counts: GateCounts { entries },
            memory_bytes: estimate_state_vector_memory_bytes(circuit.num_qubits()),
            hardware_time_estimate_ns: time,
        }
    }
}

/// The statistics panel (its drawing is done by the application).
#[derive(Debug, Default, Clone, Copy)]
pub struct StatsPanel;

/// The warning the status bar gives about the state vector's memory.
#[derive(Debug, Clone, Copy, PartialEq, Eq, Structural)]
pub enum MemoryWarning {
    /// No warning.
    Fine,
    /// The state vector needs more than 90% of the available memory.
    OverAvailable,
    /// The available memory is unknown and the circuit has over 30 qubits.
    ManyQubits,
}

/// Which warning goes with a state vector of `memory_bytes` bytes, given
/// the available memory when it is known.
pub open spec fn memory_warning_for(memory_bytes: usize, available: Option<usize>, num_qubits: usize) -> MemoryWarning {
    match available {
        Some(a) => if memory_bytes > 0 && a > 0 && memory_bytes > (a * 9) / 10 {
            MemoryWarning::OverAvailable
        } else {
            MemoryWarning::Fine
        },
        None => if num_qubits > 30 { MemoryWarning::ManyQubits } else { MemoryWarning::Fine },
    }
}

/// The status bar's memory warning (see `memory_warning_for`).
pub fn memory_warning(memory_bytes: usize, available: Option<usize>, num_qubits: usize) -> (w: MemoryWarning)
    requires
        available matches Some(a) ==> a * 9 <= usize::MAX,
    ensures
        w == memory_warning_for(memory_bytes, available, num_qubits),
{
    match available {
        Some(a) => if memory_bytes > 0 && a > 0 && memory_bytes > (a * 9) / 10 {
            MemoryWarning::OverAvailable
        } else {
            MemoryWarning::Fine
        },
        None => if num_qubits > 30 { MemoryWarning::ManyQubits } else { MemoryWarning::Fine },
    }
}


/// Adding a gate adds its hardware time: 50 ns for H, X, Y, Z, S and T,
/// 100 ns for a rotation, 500 ns for a two-qubit gate (CNOT, CZ, SWAP),
/// 2000 ns for a Toffoli, 200 ns for a custom gate, nothing for a barrier
/// or the identity.
pub proof fn lemma_gate_time_added(gs: Seq<PlacedGateView>, g: PlacedGateView)
    ensures
        (g.gate is H || g.gate is X || g.gate is Y || g.gate is Z || g.gate is S || g.gate is T)
            ==> gates_time_ns(gs.push(g)) == gates_time_ns(gs) + 50,
        (g.gate is Rx || g.gate is Ry || g.gate is Rz) ==> gates_time_ns(gs.push(g)) == gates_time_ns(gs) + 100,
        (g.gate is Cnot || g.gate is Cz || g.gate is Swap) ==> gates_time_ns(gs.push(g)) == gates_time_ns(gs) + 500,
        g.gate is Toffoli ==> gates_time_ns(gs.push(g)) == gates_time_ns(gs) + 2000,
        g.gate is Custom ==> gates_time_ns(gs.push(g)) == gates_time_ns(gs) + 200,
        (g.gate is Barrier || g.gate is Identity) ==> gates_time_ns(gs.push(g)) == gates_time_ns(gs),
{
    assert(gs.push(g).drop_last() =~= gs);
}

/// A circuit holding one gate and no measurement is estimated at that
/// gate's time: a lone two-qubit gate at 500 ns, a lone Toffoli at 2000 ns.
pub proof fn lemma_single_gate_time(g: PlacedGateView)
    ensures
        (g.gate is Cnot || g.gate is Cz || g.gate is Swap) ==> gates_time_ns(seq![g]) == 500,
        g.gate is Toffoli ==> gates_time_ns(seq![g]) == 2000,
        (g.gate is Rx || g.gate is Ry || g.gate is Rz) ==> gates_time_ns(seq![g]) == 100,
        (g.gate is H || g.gate is X || g.gate is Y || g.gate is Z || g.gate is S || g.gate is T) ==> gates_time_ns(seq![g]) == 50,
{
    lemma_gate_time_added(Seq::empty(), g);
    assert(Seq::<PlacedGateView>::empty().push(g) =~= seq![g]);
}

} // verus!
