use vstd::prelude::*;

use crate::bitstream::{
    Bitstream,
    exp2_exec,
    bits_value,
    exp2,
    lemma_bit_at_bound,
    lemma_exp2_small,
    lemma_exp2_monotone,
    total_bits,
};
use crate::error::DecodeFailed;

verus! {

/// The longest code that a tree may assign.
pub const MAX_CODE_LEN: u8 = 16;

/// The largest alphabet a tree may have.
pub const MAX_SYMBOLS: usize = 1024;

/// The number of symbols before `upto` whose code length is `l`.
pub open spec fn count_len(lens: Seq<u8>, l: int, upto: int) -> nat
    decreases upto,
{
    if upto <= 0 {
        0
    } else {
        count_len(lens, l, upto - 1) + if lens[upto - 1] as int == l {
            1nat
        } else {
            0nat
        }
    }
}

/// The number of symbols whose code length lies between 1 and `l - 1`.
pub open spec fn num_shorter(lens: Seq<u8>, l: int) -> nat
    decreases l,
{
    if l <= 1 {
        0
    } else {
        num_shorter(lens, l - 1) + count_len(lens, l - 1, lens.len() as int)
    }
}

/// The canonical code of the first symbol of length `l`.
pub open spec fn first_code(lens: Seq<u8>, l: int) -> nat
    decreases l,
{
    if l <= 1 {
        0
    } else {
        2 * (first_code(lens, l - 1) + count_len(lens, l - 1, lens.len() as int))
    }
}

/// The canonical code of symbol `s`: codes go to symbols by increasing length, and among
/// equal lengths by increasing symbol id.
pub open spec fn canonical_code(lens: Seq<u8>, s: int) -> nat {
    first_code(lens, lens[s] as int) + count_len(lens, lens[s] as int, s)
}

/// The Kraft inequality, `sum of 2^(16 - l)` over the used symbols `<= 2^16`, in the form
/// that the canonical assignment gives it: the codes do not run past 16 bits.
pub open spec fn kraft_ok(lens: Seq<u8>) -> bool {
    first_code(lens, 17) <= 2 * 65536
}

/// A code-length array that a tree can be built from.
pub open spec fn valid_lengths(lens: Seq<u8>) -> bool {
    &&& lens.len() <= MAX_SYMBOLS
    &&& forall|i: int| 0 <= i < lens.len() ==> lens[i] <= MAX_CODE_LEN
}

/// Whether the bits of `data` at `pos` begin with the code of symbol `s`.
pub open spec fn code_matches(lens: Seq<u8>, data: Seq<u8>, pos: int, s: int) -> bool {
    &&& 0 < lens[s]
    &&& bits_value(data, pos, lens[s] as nat) == canonical_code(lens, s)
}

/// Whether the code of symbol `s` lies in full within the input at `pos` and matches it.
pub open spec fn matchable(lens: Seq<u8>, data: Seq<u8>, pos: int, s: int) -> bool {
    &&& 0 <= s < lens.len()
    &&& pos + lens[s] <= total_bits(data)
    &&& code_matches(lens, data, pos, s)
}

/// What decoding one symbol at `pos` gives: the symbol whose code is the shortest match, and
/// the position after it; `InputExhausted` when nothing matches and fewer than 16 bits remain,
/// `InvalidCode` when nothing matches in 16 bits.
#[verifier::opaque]
pub open spec fn decode_result(lens: Seq<u8>, data: Seq<u8>, pos: int) -> Result<
    (int, int),
    DecodeFailed,
> {
    if exists|s: int| matchable(lens, data, pos, s) {
        let s = choose|s: int|
            matchable(lens, data, pos, s) && forall|t: int|
                matchable(lens, data, pos, t) ==> lens[s] <= lens[t];
        Ok((s, pos + lens[s]))
    } else if pos + MAX_CODE_LEN > total_bits(data) {
        Err(DecodeFailed::InputExhausted)
    } else {
        Err(DecodeFailed::InvalidCode)
    }
}

proof fn lemma_decode_ok(lens: Seq<u8>, data: Seq<u8>, pos: int, s: int)
    requires
        matchable(lens, data, pos, s),
        forall|t: int|
            0 <= t < lens.len() && lens[t] < lens[s] ==> !code_matches(lens, data, pos, t),
    ensures
        decode_result(lens, data, pos) == Ok::<(int, int), DecodeFailed>((s, pos + lens[s])),
{
    reveal(decode_result);
    assert(forall|t: int| matchable(lens, data, pos, t) ==> lens[s] <= lens[t]);
    let c = choose|c: int|
        matchable(lens, data, pos, c) && forall|t: int|
            matchable(lens, data, pos, t) ==> lens[c] <= lens[t];
    assert(lens[c] == lens[s]);
    let l = lens[s] as int;
    if c < s {
        lemma_count_len_monotone(lens, l, c + 1, s);
    } else if s < c {
        lemma_count_len_monotone(lens, l, s + 1, c);
    }
}

/// The symbol of length `l` with `r` symbols of that length before it sits at index
/// `num_shorter(l) + r` of the sorted symbol table.
pub open spec fn entry_ok(lens: Seq<u8>, syms: Seq<u16>, l: int, r: int) -> bool {
    let j = num_shorter(lens, l) + r;
    &&& j < syms.len()
    &&& syms[j] < lens.len()
    &&& lens[syms[j] as int] as int == l
    &&& count_len(lens, l, syms[j] as int) == r
}

proof fn lemma_count_len_monotone(lens: Seq<u8>, l: int, a: int, b: int)
    requires
        0 <= a <= b,
    ensures
        count_len(lens, l, a) <= count_len(lens, l, b),
        count_len(lens, l, b) <= count_len(lens, l, a) + (b - a),
    decreases b - a,
{
    if a < b {
        lemma_count_len_monotone(lens, l, a, b - 1);
    }
}

proof fn lemma_rank_lt_count(lens: Seq<u8>, s: int)
    requires
        0 <= s < lens.len(),
    ensures
        count_len(lens, lens[s] as int, s) < count_len(lens, lens[s] as int, lens.len() as int),
{
    lemma_count_len_monotone(lens, lens[s] as int, s + 1, lens.len() as int);
}

proof fn lemma_num_shorter_monotone(lens: Seq<u8>, a: int, b: int)
    requires
        1 <= a <= b,
    ensures
        num_shorter(lens, a) <= num_shorter(lens, b),
        a < b ==> num_shorter(lens, a) + count_len(lens, a, lens.len() as int) <= num_shorter(
            lens,
            b,
        ),
    decreases b - a,
{
    if a < b {
        lemma_num_shorter_monotone(lens, a, b - 1);
    }
}

proof fn lemma_first_code_grows(lens: Seq<u8>, a: int, b: int)
    requires
        1 <= a < b,
    ensures
        first_code(lens, b) >= (first_code(lens, a) + count_len(lens, a, lens.len() as int)) * exp2(
            (b - a) as nat,
        ),
    decreases b - a,
{
    let n = lens.len() as int;
    if b - a > 1 {
        lemma_first_code_grows(lens, a, b - 1);
        let x = first_code(lens, a) + count_len(lens, a, n);
        let p = exp2((b - 1 - a) as nat);
        assert(first_code(lens, b) == 2 * (first_code(lens, b - 1) + count_len(lens, b - 1, n)));
        assert(exp2((b - a) as nat) == 2 * p);
        assert(first_code(lens, b - 1) >= x * p);
        assert(x * (2 * p) == 2 * (x * p)) by (nonlinear_arith);
        assert(first_code(lens, b) >= x * exp2((b - a) as nat));
    } else {
        assert(exp2(1) == 2) by {
            reveal_with_fuel(exp2, 2);
        }
        let x = first_code(lens, a) + count_len(lens, a, lens.len() as int);
        assert(x * exp2(1) == 2 * x) by (nonlinear_arith)
            requires
                exp2(1) == 2,
        ;
    }
}

/// Once the codes of length `l` run past `l` bits, they run past 16 bits at the end too.
proof fn lemma_kraft_fails(lens: Seq<u8>, l: int)
    requires
        1 <= l <= 16,
        first_code(lens, l) + count_len(lens, l, lens.len() as int) > exp2(l as nat),
    ensures
        !kraft_ok(lens),
{
    lemma_first_code_grows(lens, l, 17);
    let x = first_code(lens, l) + count_len(lens, l, lens.len() as int);
    let e = exp2(l as nat);
    let p = exp2((17 - l) as nat);
    lemma_exp2_monotone(0, (17 - l) as nat);
    lemma_exp2_adds(l as nat, (17 - l) as nat);
    lemma_exp2_small();
    assert(x * p >= e * p + p) by (nonlinear_arith)
        requires
            x >= e + 1,
            p > 0,
    ;
}

proof fn lemma_exp2_adds(a: nat, b: nat)
    ensures
        exp2(a) * exp2(b) == exp2(a + b),
    decreases a,
{
    if a == 0 {
        assert(exp2(0) == 1);
    } else {
        lemma_exp2_adds((a - 1) as nat, b);
        assert(exp2(a + b) == 2 * exp2((a - 1 + b) as nat));
        assert(exp2(a) * exp2(b) == 2 * (exp2((a - 1) as nat) * exp2(b))) by (nonlinear_arith)
            requires
                exp2(a) == 2 * exp2((a - 1) as nat),
        ;
    }
}

/// For a code-length array that satisfies the Kraft inequality, the canonical code of every
/// used symbol fits in its length (so it is read in at most 16 bits), and the codes of two
/// distinct symbols are never equal nor one a prefix of the other.
pub proof fn lemma_canonical_prefix_free(lens: Seq<u8>, a: int, b: int)
    requires
        valid_lengths(lens),
        kraft_ok(lens),
        0 <= a < lens.len(),
        0 <= b < lens.len(),
        a != b,
        0 < lens[a] <= lens[b],
    ensures
        canonical_code(lens, a) < exp2(lens[a] as nat),
        canonical_code(lens, b) < exp2(lens[b] as nat),
        canonical_code(lens, b) / exp2((lens[b] - lens[a]) as nat) != canonical_code(lens, a),
{
    let la = lens[a] as int;
    let lb = lens[b] as int;
    let n = lens.len() as int;
    lemma_code_fits(lens, a);
    lemma_code_fits(lens, b);
    lemma_rank_lt_count(lens, a);
    if la == lb {
        assert(exp2(0) == 1);
        assert(canonical_code(lens, b) / 1 == canonical_code(lens, b));
        if a < b {
            lemma_count_len_monotone(lens, la, a + 1, b);
        } else {
            lemma_count_len_monotone(lens, la, b + 1, a);
        }
    } else {
        lemma_first_code_grows(lens, la, lb);
        let x = first_code(lens, la) + count_len(lens, la, n);
        let p = exp2((lb - la) as nat);
        let cb = canonical_code(lens, b);
        lemma_exp2_monotone(0, (lb - la) as nat);
        assert(cb / p >= x) by (nonlinear_arith)
            requires
                cb >= x * p,
                p > 0,
        {
            vstd::arithmetic::div_mod::lemma_div_is_ordered((x * p) as int, cb as int, p as int);
            vstd::arithmetic::div_mod::lemma_div_multiples_vanish(x as int, p as int);
        }
    }
}

/// Under the Kraft inequality the codes of length `l` stay below `2^l`.
proof fn lemma_code_fits(lens: Seq<u8>, s: int)
    requires
        valid_lengths(lens),
        kraft_ok(lens),
        0 <= s < lens.len(),
        0 < lens[s],
    ensures
        canonical_code(lens, s) < exp2(lens[s] as nat),
{
    let l = lens[s] as int;
    lemma_rank_lt_count(lens, s);
    let x = first_code(lens, l) + count_len(lens, l, lens.len() as int);
    lemma_first_code_grows(lens, l, 17);
    let p = exp2((17 - l) as nat);
    let e = exp2(l as nat);
    lemma_exp2_monotone(0, (17 - l) as nat);
    lemma_exp2_adds(l as nat, (17 - l) as nat);
    lemma_exp2_small();
    assert(x <= e) by (nonlinear_arith)
        requires
            x * p <= e * p,
            p > 0,
    ;
}

/// For a code-length array that satisfies the Kraft inequality, when the input at `pos`
/// begins with the canonical code of a used symbol `s`, decoding there gives `s` after
/// exactly `lens[s]` bits, at most 16: no other symbol's code of the same or a shorter length
/// matches. So distinct used symbols are always told apart.
pub proof fn lemma_code_decodes(lens: Seq<u8>, data: Seq<u8>, pos: int, s: int)
    requires
        valid_lengths(lens),
        kraft_ok(lens),
        0 <= s < lens.len(),
        0 < lens[s],
        pos + lens[s] <= total_bits(data),
        bits_value(data, pos, lens[s] as nat) == canonical_code(lens, s),
    ensures
        lens[s] <= MAX_CODE_LEN,
        forall|t: int|
            0 <= t < lens.len() && t != s && lens[t] <= lens[s] ==> !code_matches(
                lens,
                data,
                pos,
                t,
            ),
        decode_result(lens, data, pos) == Ok::<(int, int), DecodeFailed>((s, pos + lens[s])),
{
    assert forall|t: int|
        0 <= t < lens.len() && t != s && lens[t] <= lens[s] implies !code_matches(
        lens,
        data,
        pos,
        t,
    ) by {
        if 0 < lens[t] {
            lemma_canonical_prefix_free(lens, t, s);
            crate::bitstream::lemma_bits_prefix(data, pos, lens[t] as nat, lens[s] as nat);
        }
    }
    lemma_decode_ok(lens, data, pos, s);
}

/// A canonical Huffman tree built from a code-length array.
pub struct Tree {
    lengths: Vec<u8>,
    /// `counts[l]` is the number of symbols of length `l`.
    counts: Vec<u16>,
    /// The used symbols, ordered by length and then by id.
    symbols: Vec<u16>,
}

impl Tree {
    /// The code length of each symbol; 0 marks an unused symbol.
    pub closed spec fn lengths(&self) -> Seq<u8> {
        self.lengths@
    }

    pub closed spec fn wf(&self) -> bool {
        let lens = self.lengths@;
        &&& valid_lengths(lens)
        &&& kraft_ok(lens)
        &&& self.counts@.len() == 17
        &&& forall|l: int| 1 <= l <= 16 ==> self.counts@[l] == count_len(lens, l, lens.len() as int)
        &&& forall|l: int, r: int|
            1 <= l <= 16 && 0 <= r < count_len(lens, l, lens.len() as int) ==> #[trigger] entry_ok(
                lens,
                self.symbols@,
                l,
                r,
            )
    }

    /// Builds the canonical tree of a code-length array. Fails with `InvalidCode` when the
    /// lengths break the Kraft inequality.
    pub fn new(lengths: Vec<u8>) -> (r: Result<Tree, DecodeFailed>)
        requires
            valid_lengths(lengths@),
        ensures
            kraft_ok(lengths@) ==> r is Ok,
            !kraft_ok(lengths@) ==> r == Err::<Tree, DecodeFailed>(DecodeFailed::InvalidCode),
            r is Ok ==> r->Ok_0.wf() && r->Ok_0.lengths() == lengths@,
    {
        let ghost lens = lengths@;
        let n = lengths.len();
        let mut counts: Vec<u16> = Vec::new();
        let mut l: usize = 0;
        while l < 17
            invariant
                l <= 17,
                counts@.len() == l,
                forall|k: int| 0 <= k < l ==> counts@[k] == 0,
            decreases 17 - l,
        {
            counts.push(0);
            l = l + 1;
        }
        let mut s: usize = 0;
        while s < n
            invariant
                lens == lengths@,
                n == lens.len(),
                valid_lengths(lens),
                s <= n,
                counts@.len() == 17,
                forall|k: int| 1 <= k <= 16 ==> #[trigger] counts@[k] == count_len(lens, k, s as int),
            decreases n - s,
        {
            let len = lengths[s] as usize;
            proof {
                assert forall|k: int| 1 <= k <= 16 implies count_len(lens, k, s as int)
                    < s + 1 by {
                    lemma_count_len_monotone(lens, k, 0, s as int);
                }
            }
            if len > 0 {
                counts.set(len, counts[len] + 1);
            }
            s = s + 1;
        }
        // Check the Kraft inequality, and find where each length starts in the sorted table.
        let mut offsets: Vec<u32> = Vec::new();
        offsets.push(0);
        let mut first: u32 = 0;
        let mut index: u32 = 0;
        let mut l: usize = 1;
        while l <= 16
            invariant
                lens == lengths@,
                n == lens.len(),
                valid_lengths(lens),
                counts@.len() == 17,
                forall|k: int| 1 <= k <= 16 ==> #[trigger] counts@[k] == count_len(lens, k, n as int),
                1 <= l <= 17,
                offsets@.len() == l,
                forall|k: int| 1 <= k < l ==> #[trigger] offsets@[k] == num_shorter(lens, k),
                first == first_code(lens, l as int),
                first <= exp2(l as nat),
                index == num_shorter(lens, l as int),
                index <= (l - 1) * MAX_SYMBOLS,
            decreases 17 - l,
        {
            proof {
                lemma_exp2_monotone(l as nat, 16);
                lemma_exp2_small();
                lemma_count_len_monotone(lens, l as int, 0, n as int);
            }
            let c = counts[l] as u32;
            if first + c > exp2_exec(l) {
                proof {
                    lemma_kraft_fails(lens, l as int);
                }
                return Err(DecodeFailed::InvalidCode);
            }
            offsets.push(index);
            index = index + c;
            first = 2 * (first + c);
            l = l + 1;
        }
        proof {
            lemma_exp2_small();
        }
        let total = index as usize;
        let mut symbols: Vec<u16> = Vec::new();
        while symbols.len() < total
            invariant
                symbols@.len() <= total,
            decreases total - symbols@.len(),
        {
            symbols.push(0);
        }
        let mut next = offsets;
        let mut s: usize = 0;
        while s < n
            invariant
                lens == lengths@,
                n == lens.len(),
                valid_lengths(lens),
                s <= n,
                total == num_shorter(lens, 17),
                total <= 16 * MAX_SYMBOLS,
                kraft_ok(lens),
                counts@.len() == 17,
                forall|k: int| 1 <= k <= 16 ==> #[trigger] counts@[k] == count_len(lens, k, n as int),
                symbols@.len() == total,
                next@.len() == 17,
                forall|k: int| 1 <= k <= 16 ==> #[trigger] next@[k] == num_shorter(lens, k) + count_len(lens, k, s as int),
                forall|k: int, r: int|
                    1 <= k <= 16 && 0 <= r < count_len(lens, k, s as int) ==> #[trigger] entry_ok(
                        lens,
                        symbols@,
                        k,
                        r,
                    ),
            decreases n - s,
        {
            let len = lengths[s] as usize;
            if len > 0 {
                let ghost k0 = len as int;
                let ghost old_syms = symbols@;
                proof {
                    lemma_rank_lt_count(lens, s as int);
                    lemma_count_len_monotone(lens, k0, 0, n as int);
                    lemma_num_shorter_monotone(lens, k0, 17);
                }
                let j = next[len] as usize;
                symbols.set(j, s as u16);
                next.set(len, next[len] + 1);
                proof {
                    assert forall|k: int, r: int|
                        1 <= k <= 16 && 0 <= r < count_len(lens, k, s + 1) implies #[trigger] entry_ok(
                        lens,
                        symbols@,
                        k,
                        r,
                    ) by {
                        if k == k0 && r == count_len(lens, k, s as int) {
                        } else {
                            assert(entry_ok(lens, old_syms, k, r));
                            let j2 = num_shorter(lens, k) + r;
                            if k < k0 {
                                lemma_count_len_monotone(lens, k, s as int, n as int);
                                lemma_num_shorter_monotone(lens, k, k0);
                            } else if k > k0 {
                                lemma_num_shorter_monotone(lens, k0, k);
                            }
                            assert(j2 != j);
                        }
                    }
                }
            }
            s = s + 1;
        }
        Ok(Tree { lengths, counts, symbols })
    }

    /// The number of symbols in the tree's alphabet.
    pub fn num_symbols(&self) -> (r: usize)
        ensures
            r == self.lengths().len(),
    {
        self.lengths.len()
    }

    /// Decodes one symbol: reads bits until they spell the canonical code of a symbol. The
    /// symbol returned is the one whose code is the shortest prefix of the input; no two
    /// symbols of one length share a code, so it is unique.
    pub fn decode(&self, reader: &mut Bitstream) -> (r: Result<u16, DecodeFailed>)
        requires
            self.wf(),
            old(reader).wf(),
        ensures
            final(reader).wf(),
            final(reader).data() == old(reader).data(),
            final(reader).pos() >= old(reader).pos(),
            r is Ok ==> {
                let s = r->Ok_0 as int;
                &&& s < self.lengths().len()
                &&& code_matches(self.lengths(), old(reader).data(), old(reader).pos(), s)
                &&& final(reader).pos() == old(reader).pos() + self.lengths()[s]
                &&& forall|t: int|
                    0 <= t < self.lengths().len() && self.lengths()[t] < self.lengths()[s]
                        ==> !code_matches(self.lengths(), old(reader).data(), old(reader).pos(), t)
            },
            r == Err::<u16, DecodeFailed>(DecodeFailed::InvalidCode) ==> forall|t: int|
                0 <= t < self.lengths().len() ==> !code_matches(
                    self.lengths(),
                    old(reader).data(),
                    old(reader).pos(),
                    t,
                ),
            r == Err::<u16, DecodeFailed>(DecodeFailed::InputExhausted) ==> {
                &&& old(reader).pos() + MAX_CODE_LEN > total_bits(old(reader).data())
                &&& forall|t: int|
                    0 <= t < self.lengths().len() && old(reader).pos() + self.lengths()[t]
                        <= total_bits(old(reader).data()) ==> !code_matches(
                        self.lengths(),
                        old(reader).data(),
                        old(reader).pos(),
                        t,
                    )
            },
            r is Err ==> r == Err::<u16, DecodeFailed>(DecodeFailed::InvalidCode) || r == Err::<
                u16,
                DecodeFailed,
            >(DecodeFailed::InputExhausted),
            r is Ok ==> decode_result(self.lengths(), old(reader).data(), old(reader).pos()) == Ok::<
                (int, int),
                DecodeFailed,
            >((r->Ok_0 as int, final(reader).pos())),
            r is Err ==> decode_result(self.lengths(), old(reader).data(), old(reader).pos()) == Err::<
                (int, int),
                DecodeFailed,
            >(r->Err_0),
    {
        let ghost lens = self.lengths@;
        let ghost data = reader.data();
        let ghost pos0 = reader.pos();
        let mut code: u32 = 0;
        let mut first: u32 = 0;
        let mut index: u32 = 0;
        let mut l: usize = 1;
        while l <= 16
            invariant
                self.wf(),
                lens == self.lengths@,
                reader.wf(),
                reader.data() == data,
                data == old(reader).data(),
                pos0 == old(reader).pos(),
                1 <= l <= 17,
                reader.pos() == pos0 + l - 1,
                code == bits_value(data, pos0, (l - 1) as nat),
                first == first_code(lens, l as int),
                first <= 2 * code,
                code < exp2((l - 1) as nat),
                index == num_shorter(lens, l as int),
                index <= (l - 1) * MAX_SYMBOLS,
                forall|t: int|
                    0 <= t < lens.len() && lens[t] < l ==> !code_matches(lens, data, pos0, t),
            decreases 17 - l,
        {
            proof {
                lemma_exp2_monotone((l - 1) as nat, 15);
                lemma_exp2_small();
                lemma_count_len_monotone(lens, l as int, 0, lens.len() as int);
            }
            let bit = match reader.read_bit() {
                Ok(b) => b,
                Err(e) => {
                    proof {
                        reveal(decode_result);
                        assert(!exists|t: int| matchable(lens, data, pos0, t));
                    }
                    return Err(e);
                },
            };
            proof {
                lemma_bit_at_bound(data, pos0 + l - 1);
            }
            code = 2 * code + bit;
            let count = self.counts[l] as u32;
            if code - first < count {
                let r = code - first;
                proof {
                    assert(entry_ok(lens, self.symbols@, l as int, r as int));
                }
                let s = self.symbols[(index + r) as usize];
                proof {
                    reader.lemma_pos_bound();
                    lemma_decode_ok(lens, data, pos0, s as int);
                }
                return Ok(s);
            }
            proof {
                assert forall|t: int|
                    0 <= t < lens.len() && lens[t] == l implies !code_matches(
                    lens,
                    data,
                    pos0,
                    t,
                ) by {
                    lemma_rank_lt_count(lens, t);
                }
            }
            index = index + count;
            first = 2 * (first + count);
            l = l + 1;
        }
        proof {
            reader.lemma_pos_bound();
            reveal(decode_result);
            assert(!exists|t: int| matchable(lens, data, pos0, t));
        }
        Err(DecodeFailed::InvalidCode)
    }
}

} // verus!
