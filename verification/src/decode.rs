use crate::bits::{msb_bit, read_bit};
use crate::code_table::{all_shorter, code_bits, codes_unique, has_code, is_bit_table};
use crate::encode::EncodedData;
use crate::error::CodecError;
use crate::symbols::lemma_position_of;
use crate::text::text_of;
use vstd::prelude::*;

verus! {

/// The bit stream of an artifact: the first `total_bits` bits of its bytes,
/// most significant bit first. What is left of the last byte is no part
/// of it.
pub open spec fn payload_bits(data: Seq<u8>, total_bits: nat) -> Seq<bool> {
    Seq::new(total_bits, |i: int| msb_bit(data, i))
}

/// The symbol whose code has these bits.
pub open spec fn symbol_of(table: Map<char, Seq<char>>, bits: Seq<bool>) -> char {
    choose|c: char| table.contains_key(c) && code_bits(#[trigger] table[c]) == bits
}

/// A result with `symbols` put before what it holds.
pub open spec fn after(symbols: Seq<char>, rest: Result<Seq<char>, CodecError>) -> Result<
    Seq<char>,
    CodecError,
> {
    match rest {
        Ok(tail) => Ok(symbols + tail),
        Err(e) => Err(e),
    }
}

/// Reads `bits` with `candidate` already read since the last symbol. Each
/// bit joins the candidate; a candidate that is a code gives its symbol and
/// starts anew; one that is longer than every code fits no symbol at all.
/// A candidate left over at the end is a code cut short.
pub open spec fn decode_bits(
    table: Map<char, Seq<char>>,
    bits: Seq<bool>,
    candidate: Seq<bool>,
) -> Result<Seq<char>, CodecError>
    decreases bits.len(),
{
    if bits.len() == 0 {
        if candidate.len() == 0 {
            Ok(Seq::empty())
        } else {
            Err(CodecError::TruncatedStream)
        }
    } else {
        let grown = candidate.push(bits[0]);
        if has_code(table, grown) {
            after(seq![symbol_of(table, grown)], decode_bits(table, bits.drop_first(), Seq::empty()))
        } else if all_shorter(table, grown.len()) {
            Err(CodecError::UnknownCode)
        } else {
            decode_bits(table, bits.drop_first(), grown)
        }
    }
}

/// The artifact does not contradict itself: its bytes hold as many bits as
/// it claims, no two symbols share a code, and a table without symbols
/// comes with no bits.
pub open spec fn consistent(codes: Map<char, Seq<char>>, total_bits: nat, data: Seq<u8>) -> bool {
    &&& total_bits <= 8 * data.len()
    &&& codes_unique(codes)
    &&& codes == Map::<char, Seq<char>>::empty() ==> total_bits == 0
}

/// The text of an artifact, or why it has none.
pub open spec fn decoded(codes: Map<char, Seq<char>>, total_bits: nat, data: Seq<u8>) -> Result<
    Seq<char>,
    CodecError,
> {
    if consistent(codes, total_bits, data) {
        decode_bits(codes, payload_bits(data, total_bits), Seq::empty())
    } else {
        Err(CodecError::MalformedArtifact)
    }
}

/// Some entry of the bit table holds exactly these bits.
pub open spec fn listed(bit_table: Seq<(char, Vec<bool>)>, bits: Seq<bool>) -> bool {
    exists|i: int| 0 <= i < bit_table.len() && (#[trigger] bit_table[i]).1@ == bits
}

/// What the table says of codes, the bit table says of its entries.
pub proof fn lemma_bit_table(bit_table: Seq<(char, Vec<bool>)>, table: Map<char, Seq<char>>)
    requires
        is_bit_table(bit_table, table),
    ensures
        forall|bits: Seq<bool>| #[trigger] has_code(table, bits) <==> listed(bit_table, bits),
        forall|n: nat| #[trigger]
            all_shorter(table, n) <==> forall|i: int|
                0 <= i < bit_table.len() ==> (#[trigger] bit_table[i]).1@.len() < n,
        codes_unique(table) <==> forall|i: int, j: int|
            0 <= i < j < bit_table.len() ==> (#[trigger] bit_table[i]).1@
                != (#[trigger] bit_table[j]).1@,
        bit_table.len() == 0 <==> table == Map::<char, Seq<char>>::empty(),
        forall|i: int|
            0 <= i < bit_table.len() ==> table.contains_key((#[trigger] bit_table[i]).0),
{
    assert forall|bits: Seq<bool>| #[trigger] has_code(table, bits) <==> listed(
        bit_table,
        bits,
    ) by {
        if has_code(table, bits) {
            let c = choose|c: char| table.contains_key(c) && code_bits(#[trigger] table[c]) == bits;
            lemma_position_of(bit_table, c);
        }
    }
    assert forall|n: nat| #[trigger]
        all_shorter(table, n) <==> forall|i: int|
            0 <= i < bit_table.len() ==> (#[trigger] bit_table[i]).1@.len() < n by {
        if forall|i: int| 0 <= i < bit_table.len() ==> (#[trigger] bit_table[i]).1@.len() < n {
            assert forall|c: char| table.contains_key(c) implies (#[trigger] table[c]).len()
                < n by {
                lemma_position_of(bit_table, c);
            }
        }
    }
    if forall|i: int, j: int|
        0 <= i < j < bit_table.len() ==> (#[trigger] bit_table[i]).1@
            != (#[trigger] bit_table[j]).1@ {
        assert forall|a: char, b: char|
            table.contains_key(a) && table.contains_key(b) && a != b implies code_bits(
            #[trigger] table[a],
        ) != code_bits(#[trigger] table[b]) by {
            lemma_position_of(bit_table, a);
            lemma_position_of(bit_table, b);
        }
    }
    if bit_table.len() == 0 {
        assert(table =~= Map::<char, Seq<char>>::empty());
    } else {
        assert(table.contains_key(bit_table[0].0));
    }
}

/// Where no two symbols share a code, the symbol of an entry's bits is the
/// entry's symbol.
pub proof fn lemma_symbol_of(
    bit_table: Seq<(char, Vec<bool>)>,
    table: Map<char, Seq<char>>,
    i: int,
)
    requires
        is_bit_table(bit_table, table),
        codes_unique(table),
        0 <= i < bit_table.len(),
    ensures
        symbol_of(table, bit_table[i].1@) == bit_table[i].0,
{
    lemma_bit_table(bit_table, table);
}

/// Whether two bit strings are the same.
fn same_bits(a: &Vec<bool>, b: &Vec<bool>) -> (same: bool)
    ensures
        same <==> a@ == b@,
{
    if a.len() != b.len() {
        return false;
    }
    let mut i: usize = 0;
    while i < a.len()
        invariant
            0 <= i <= a.len(),
            a.len() == b.len(),
            a@.take(i as int) == b@.take(i as int),
        decreases a.len() - i,
    {
        if a[i] != b[i] {
            return false;
        }
        i += 1;
    }
    proof {
        assert(a@.take(i as int) == a@);
        assert(b@.take(i as int) == b@);
    }
    true
}

/// The place of the first entry that holds these bits, or the length of
/// the table where none does.
fn find_code(bit_table: &Vec<(char, Vec<bool>)>, bits: &Vec<bool>) -> (at: usize)
    ensures
        at <= bit_table.len(),
        at < bit_table.len() ==> bit_table@[at as int].1@ == bits@,
        at == bit_table.len() ==> !listed(bit_table@, bits@),
{
    let mut i: usize = 0;
    while i < bit_table.len()
        invariant
            0 <= i <= bit_table.len(),
            forall|k: int| 0 <= k < i ==> (#[trigger] bit_table@[k]).1@ != bits@,
        decreases bit_table.len() - i,
    {
        if same_bits(&bit_table[i].1, bits) {
            return i;
        }
        i += 1;
    }
    i
}

/// Whether two entries of the table hold the same bits.
fn shares_code(bit_table: &Vec<(char, Vec<bool>)>) -> (shared: bool)
    ensures
        !shared <==> forall|i: int, j: int|
            0 <= i < j < bit_table.len() ==> (#[trigger] bit_table@[i]).1@
                != (#[trigger] bit_table@[j]).1@,
{
    let mut j: usize = 0;
    while j < bit_table.len()
        invariant
            0 <= j <= bit_table.len(),
            forall|a: int, b: int|
                0 <= a < b < j ==> (#[trigger] bit_table@[a]).1@ != (#[trigger] bit_table@[b]).1@,
        decreases bit_table.len() - j,
    {
        let mut i: usize = 0;
        while i < j
            invariant
                0 <= i <= j < bit_table.len(),
                forall|a: int| 0 <= a < i ==> (#[trigger] bit_table@[a]).1@ != bit_table@[j as int].1@,
            decreases j - i,
        {
            if same_bits(&bit_table[i].1, &bit_table[j].1) {
                return true;
            }
            i += 1;
        }
        j += 1;
    }
    false
}

/// The length of the longest code of the table, zero where it has none.
fn longest_code(bit_table: &Vec<(char, Vec<bool>)>) -> (longest: usize)
    ensures
        forall|i: int| 0 <= i < bit_table.len() ==> (#[trigger] bit_table@[i]).1@.len() <= longest,
        bit_table.len() == 0 ==> longest == 0,
        bit_table.len() > 0 ==> exists|i: int|
            0 <= i < bit_table.len() && (#[trigger] bit_table@[i]).1@.len() == longest,
{
    let mut longest: usize = 0;
    let mut i: usize = 0;
    while i < bit_table.len()
        invariant
            0 <= i <= bit_table.len(),
            forall|k: int| 0 <= k < i ==> (#[trigger] bit_table@[k]).1@.len() <= longest,
            i == 0 ==> longest == 0,
            i > 0 ==> exists|k: int| 0 <= k < i && (#[trigger] bit_table@[k]).1@.len() == longest,
        decreases bit_table.len() - i,
    {
        if bit_table[i].1.len() > longest {
            longest = bit_table[i].1.len();
        }
        i += 1;
    }
    longest
}

/// Restores the text of an artifact. Only the artifact decides what comes
/// out: its table, its bit count, and the first `total_bits` bits of its
/// bytes.
pub fn decode(artifact: &EncodedData) -> (result: Result<String, CodecError>)
    ensures
        match decoded(artifact.codes@, artifact.total_bits as nat, artifact.data@) {
            Ok(symbols) => result matches Ok(text) && text@ == symbols,
            Err(e) => result matches Err(found) && found == e,
        },
{
    let total_bits = artifact.total_bits;
    let data = &artifact.data;
    if data.len() < total_bits / 8 || (data.len() == total_bits / 8 && total_bits % 8 != 0) {
        return Err(CodecError::MalformedArtifact);
    }
    let bit_table = artifact.codes.bit_codes();
    proof {
        lemma_bit_table(bit_table@, artifact.codes@);
    }
    if shares_code(&bit_table) {
        return Err(CodecError::MalformedArtifact);
    }
    if bit_table.len() == 0 && total_bits > 0 {
        return Err(CodecError::MalformedArtifact);
    }
    let longest = longest_code(&bit_table);
    let ghost table = artifact.codes@;
    let ghost bits = payload_bits(data@, total_bits as nat);
    proof {
        assert(bits.skip(0) =~= bits);
        let all = decode_bits(table, bits, Seq::empty());
        assert(after(Seq::<char>::empty(), all) == all);
    }
    let mut out: Vec<char> = Vec::new();
    let mut candidate: Vec<bool> = Vec::new();
    let mut i: usize = 0;
    while i < total_bits
        invariant
            0 <= i <= total_bits <= 8 * data.len(),
            is_bit_table(bit_table@, table),
            codes_unique(table),
            bits == payload_bits(data@, total_bits as nat),
            forall|k: int| 0 <= k < bit_table.len() ==> (#[trigger] bit_table@[k]).1@.len() <= longest,
            bit_table.len() > 0 ==> exists|k: int|
                0 <= k < bit_table.len() && (#[trigger] bit_table@[k]).1@.len() == longest,
            bit_table.len() == 0 ==> longest == 0,
            table == artifact.codes@,
            total_bits == artifact.total_bits,
            data@ == artifact.data@,
            consistent(table, total_bits as nat, data@),
            decode_bits(table, bits, Seq::empty()) == after(
                out@,
                decode_bits(table, bits.skip(i as int), candidate@),
            ),
        decreases total_bits - i,
    {
        let bit = read_bit(data, i);
        let ghost rest = bits.skip(i as int);
        proof {
            lemma_bit_table(bit_table@, table);
            assert(rest.drop_first() == bits.skip(i as int + 1));
        }
        candidate.push(bit);
        let at = find_code(&bit_table, &candidate);
        if at < bit_table.len() {
            proof {
                lemma_symbol_of(bit_table@, table, at as int);
                let tail = decode_bits(table, bits.skip(i as int + 1), Seq::empty());
                assert(after(out@, after(seq![bit_table@[at as int].0], tail)) == after(
                    out@.push(bit_table@[at as int].0),
                    tail,
                )) by {
                    if let Ok(t) = tail {
                        assert(out@ + (seq![bit_table@[at as int].0] + t) =~= out@.push(
                            bit_table@[at as int].0,
                        ) + t);
                    }
                }
            }
            out.push(bit_table[at].0);
            candidate = Vec::new();
        } else if candidate.len() > longest {
            return Err(CodecError::UnknownCode);
        } else {
            proof {
                assert(!all_shorter(table, candidate@.len()));
            }
        }
        i += 1;
    }
    if candidate.len() > 0 {
        return Err(CodecError::TruncatedStream);
    }
    Ok(text_of(&out))
}

} // verus!
