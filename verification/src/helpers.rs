use crate::bits::{bit_contents, max_bits, pack_bits, BitBuffer};
use crate::code_table::{code_bits, is_bit_table, CodeTable};
use crate::error::CodecError;
use crate::frequency::{count_in, occurrences, tally, total_weight, FrequencyTable};
use crate::symbols::{find_symbol, lemma_position_of, position_of};
use crate::text::{chars_of, push_char};
use vstd::prelude::*;
use vstd::string::StringExecFns;

verus! {

/// The character at `i` ends a line: it is a line feed, or a carriage
/// return that stands directly before one.
pub open spec fn ends_line(text: Seq<char>, i: int) -> bool {
    text[i] == '\n' || (text[i] == '\r' && i + 1 < text.len() && text[i + 1] == '\n')
}

/// The first `n` characters of `text` without those that end a line.
pub open spec fn payload_upto(text: Seq<char>, n: nat) -> Seq<char>
    decreases n,
{
    if n == 0 {
        Seq::empty()
    } else if ends_line(text, n - 1) {
        payload_upto(text, (n - 1) as nat)
    } else {
        payload_upto(text, (n - 1) as nat).push(text[n - 1])
    }
}

/// The symbols of a text: its characters line by line, without the line
/// terminators.
pub open spec fn payload(text: Seq<char>) -> Seq<char> {
    payload_upto(text, text.len())
}

/// The bits that `c` is written with, none where the table has no code
/// for it.
pub open spec fn bits_for(table: Map<char, Seq<char>>, c: char) -> Seq<bool> {
    if table.contains_key(c) {
        code_bits(table[c])
    } else {
        Seq::empty()
    }
}

/// The bit stream of a text: the codes of its symbols, one after the other.
pub open spec fn stream_of(table: Map<char, Seq<char>>, symbols: Seq<char>) -> Seq<bool>
    decreases symbols.len(),
{
    if symbols.len() == 0 {
        Seq::empty()
    } else {
        stream_of(table, symbols.drop_last()) + bits_for(table, symbols.last())
    }
}

/// The table has a code for every symbol of the text.
pub open spec fn all_known(table: Map<char, Seq<char>>, symbols: Seq<char>) -> bool {
    forall|i: int| 0 <= i < symbols.len() ==> table.contains_key(#[trigger] symbols[i])
}

/// The symbols of a text, line terminators left out.
pub fn payload_symbols(text: &str) -> (symbols: Vec<char>)
    ensures
        symbols@ == payload(text@),
{
    let chars = chars_of(text);
    let mut symbols: Vec<char> = Vec::new();
    let mut i: usize = 0;
    while i < chars.len()
        invariant
            0 <= i <= chars.len(),
            chars@ == text@,
            symbols@ == payload_upto(text@, i as nat),
        decreases chars.len() - i,
    {
        let c = chars[i];
        let ends = c == '\n' || (c == '\r' && i + 1 < chars.len() && chars[i + 1] == '\n');
        if !ends {
            symbols.push(c);
        }
        i += 1;
    }
    symbols
}

/// Counts how often each symbol occurs in a text. Line terminators are not
/// counted.
pub fn get_char_occurence(text: &str) -> (char_map: FrequencyTable)
    ensures
        char_map@ == tally(payload(text@)),
        total_weight(char_map@) == payload(text@).len(),
        forall|c: char| count_in(char_map@, c) == #[trigger] occurrences(payload(text@), c),
{
    let symbols = payload_symbols(text);
    FrequencyTable::of_symbols(&symbols)
}

/// Appends the codes of `symbols` to the buffer, or nothing at all: where a
/// symbol has no code, or the buffer has no room for all the bits, the
/// buffer stays as it was.
pub fn push_symbols(bv: &mut BitBuffer, symbols: &Vec<char>, codes: &CodeTable) -> (result: Result<
    (),
    CodecError,
>)
    ensures
        result is Ok <==> all_known(codes@, symbols@) && bit_contents(*old(bv)).len() + stream_of(
            codes@,
            symbols@,
        ).len() <= max_bits(),
        result is Ok ==> bit_contents(*final(bv)) == bit_contents(*old(bv)) + stream_of(
            codes@,
            symbols@,
        ),
        result is Err ==> bit_contents(*final(bv)) == bit_contents(*old(bv)),
        result matches Err(e) ==> e == (if all_known(codes@, symbols@) {
            CodecError::InputTooLarge
        } else {
            CodecError::UnknownSymbol
        }),
{
    let bit_table = codes.bit_codes();
    let room = bv.room();
    let mut slots: Vec<usize> = Vec::new();
    let mut need: usize = 0;
    let mut fits = bv.len() <= usize::MAX / 8;
    let mut i: usize = 0;
    while i < symbols.len()
        invariant
            0 <= i <= symbols.len(),
            is_bit_table(bit_table@, codes@),
            all_known(codes@, symbols@.take(i as int)),
            slots@.len() == i,
            forall|k: int|
                0 <= k < i ==> #[trigger] slots@[k] == position_of(bit_table@, symbols@[k])
                    && slots@[k] < bit_table@.len(),
            fits ==> need == stream_of(codes@, symbols@.take(i as int)).len() && need <= room,
            !fits ==> bit_contents(*bv).len() + stream_of(codes@, symbols@.take(i as int)).len()
                > max_bits(),
            fits ==> room + bit_contents(*bv).len() == max_bits(),
            bv == old(bv),
        decreases symbols.len() - i,
    {
        let at = find_symbol(&bit_table, symbols[i]);
        proof {
            lemma_position_of(bit_table@, symbols@[i as int]);
            assert(symbols@.take(i as int + 1).drop_last() == symbols@.take(i as int));
        }
        if at == bit_table.len() {
            return Err(CodecError::UnknownSymbol);
        }
        slots.push(at);
        let n = bit_table[at].1.len();
        if fits && n <= room - need {
            need = need + n;
        } else {
            fits = false;
        }
        i += 1;
    }
    proof {
        assert(symbols@.take(i as int) == symbols@);
    }
    if !fits {
        return Err(CodecError::InputTooLarge);
    }
    let mut k: usize = 0;
    while k < slots.len()
        invariant
            0 <= k <= slots.len(),
            slots@.len() == symbols@.len(),
            is_bit_table(bit_table@, codes@),
            all_known(codes@, symbols@),
            forall|j: int|
                0 <= j < slots@.len() ==> #[trigger] slots@[j] == position_of(
                    bit_table@,
                    symbols@[j],
                ) && slots@[j] < bit_table@.len(),
            bit_contents(*old(bv)).len() + stream_of(codes@, symbols@).len() <= max_bits(),
            bit_contents(*bv) == bit_contents(*old(bv)) + stream_of(
                codes@,
                symbols@.take(k as int),
            ),
        decreases slots.len() - k,
    {
        proof {
            assert(symbols@.take(k as int + 1).drop_last() == symbols@.take(k as int));
            lemma_position_of(bit_table@, symbols@[k as int]);
            lemma_stream_grows(codes@, symbols@, k as int + 1);
        }
        bv.extend(&bit_table[slots[k]].1);
        k += 1;
    }
    Ok(())
}

/// The stream of the beginning of a text is no longer than that of all
/// of it.
pub proof fn lemma_stream_grows(table: Map<char, Seq<char>>, symbols: Seq<char>, n: int)
    requires
        0 <= n <= symbols.len(),
    ensures
        stream_of(table, symbols.take(n)).len() <= stream_of(table, symbols).len(),
    decreases symbols.len() - n,
{
    if n < symbols.len() {
        lemma_stream_grows(table, symbols, n + 1);
        assert(symbols.take(n + 1).drop_last() == symbols.take(n));
    } else {
        assert(symbols.take(n) == symbols);
    }
}

/// Appends the codes of the symbols of one line to the buffer, or nothing
/// at all where that cannot be done.
pub fn push_to_bit(bv: &mut BitBuffer, line: String, codes: &CodeTable) -> (result: Result<
    (),
    CodecError,
>)
    ensures
        result is Ok <==> all_known(codes@, line@) && bit_contents(*old(bv)).len() + stream_of(
            codes@,
            line@,
        ).len() <= max_bits(),
        result is Ok ==> bit_contents(*final(bv)) == bit_contents(*old(bv)) + stream_of(
            codes@,
            line@,
        ),
        result is Err ==> bit_contents(*final(bv)) == bit_contents(*old(bv)),
        result matches Err(e) ==> e == (if all_known(codes@, line@) {
            CodecError::InputTooLarge
        } else {
            CodecError::UnknownSymbol
        }),
{
    let symbols = chars_of(line.as_str());
    push_symbols(bv, &symbols, codes)
}

/// Writes a text with the codes of a table: the packed bytes of its bit
/// stream, and the number of bits in the stream.
pub fn encoder(text: &str, codes: &CodeTable) -> (result: Result<(Vec<u8>, usize), CodecError>)
    ensures
        result is Ok <==> all_known(codes@, payload(text@)) && stream_of(
            codes@,
            payload(text@),
        ).len() <= max_bits(),
        result matches Ok(packed) ==> packed.0@ == pack_bits(stream_of(codes@, payload(text@)))
            && packed.1 == stream_of(codes@, payload(text@)).len(),
        result matches Err(e) ==> e == (if all_known(codes@, payload(text@)) {
            CodecError::InputTooLarge
        } else {
            CodecError::UnknownSymbol
        }),
{
    let symbols = payload_symbols(text);
    let mut bv = BitBuffer::new();
    match push_symbols(&mut bv, &symbols, codes) {
        Ok(()) => {
            let total_bits = bv.len();
            Ok((bv.to_bytes(), total_bits))
        },
        Err(e) => Err(e),
    }
}

/// The colon at `k` is the only one of the line.
pub open spec fn splits_at(line: Seq<char>, k: int) -> bool {
    &&& 0 <= k < line.len()
    &&& line[k] == ':'
    &&& forall|j: int| 0 <= j < line.len() && j != k ==> line[j] != ':'
}

/// What a line of a code listing says: a line with exactly one colon gives
/// its first character the code behind the colon, any other line says
/// nothing.
pub open spec fn listed_code(line: Seq<char>) -> Option<(char, Seq<char>)> {
    if exists|k: int| splits_at(line, k) {
        Some((line[0], line.skip((choose|k: int| splits_at(line, k)) + 1)))
    } else {
        None
    }
}

/// The table after a line of a code listing was read.
pub open spec fn with_line(table: Map<char, Seq<char>>, line: Seq<char>) -> Map<char, Seq<char>> {
    match listed_code(line) {
        Some((ch, code)) => table.insert(ch, code),
        None => table,
    }
}

/// The line that ends a code listing.
pub open spec fn end_of_listing() -> Seq<char> {
    seq!['e', 'n', 'c', 'o', 'd', 'e', '\n']
}

/// The table after the lines of a code listing were read, up to the line
/// that ends the listing.
pub open spec fn with_lines(table: Map<char, Seq<char>>, lines: Seq<Seq<char>>) -> Map<
    char,
    Seq<char>,
>
    decreases lines.len(),
{
    if lines.len() == 0 || lines[0] == end_of_listing() {
        table
    } else {
        with_lines(with_line(table, lines[0]), lines.drop_first())
    }
}

/// Every line before the end of the listing has a character before its
/// colon, if the colon is its only one.
pub open spec fn lines_have_symbols(lines: Seq<Seq<char>>) -> bool
    decreases lines.len(),
{
    if lines.len() == 0 || lines[0] == end_of_listing() {
        true
    } else {
        !splits_at(lines[0], 0) && lines_have_symbols(lines.drop_first())
    }
}

/// The listing of a code table: a line `symbol:code` for each entry in
/// turn, and a last line that says that the encoding follows.
pub open spec fn listing_of(entries: Seq<(char, String)>) -> Seq<char>
    decreases entries.len(),
{
    if entries.len() == 0 {
        seq!['e', 'n', 'c', 'o', 'd', 'i', 'n', 'g', '\n']
    } else {
        seq![entries[0].0, ':'] + entries[0].1@ + seq!['\n'] + listing_of(entries.drop_first())
    }
}

/// Reads one line of a code listing into the table. A line that is only a
/// colon and a code names no symbol, and is not accepted.
pub fn get_codes(line: &String, codes: &mut CodeTable)
    requires
        !splits_at(line@, 0),
    ensures
        final(codes)@ == with_line(old(codes)@, line@),
{
    let chars = chars_of(line.as_str());
    let mut k: usize = 0;
    while k < chars.len() && chars[k] != ':'
        invariant
            0 <= k <= chars.len(),
            forall|j: int| 0 <= j < k ==> chars@[j] != ':',
        decreases chars.len() - k,
    {
        k += 1;
    }
    if k == chars.len() {
        proof {
            assert forall|j: int| !splits_at(line@, j) by {}
        }
        return ;
    }
    let mut code = String::new();
    let mut i: usize = k + 1;
    while i < chars.len()
        invariant
            k < i <= chars.len(),
            chars@ == line@,
            chars@[k as int] == ':',
            forall|j: int| 0 <= j < i && j != k ==> chars@[j] != ':',
            code@ == chars@.subrange(k as int + 1, i as int),
        decreases chars.len() - i,
    {
        if chars[i] == ':' {
            return ;
        }
        push_char(&mut code, chars[i]);
        i += 1;
    }
    proof {
        assert(splits_at(line@, k as int));
    }
    codes.insert(chars[0], code);
}

/// Whether a line is the one that ends a code listing.
fn ends_listing(line: &String) -> (ends: bool)
    ensures
        ends <==> line@ == end_of_listing(),
{
    let chars = chars_of(line.as_str());
    let ends = chars.len() == 7 && chars[0] == 'e' && chars[1] == 'n' && chars[2] == 'c'
        && chars[3] == 'o' && chars[4] == 'd' && chars[5] == 'e' && chars[6] == '\n';
    proof {
        if ends {
            assert(line@ =~= end_of_listing());
        }
    }
    ends
}

/// Reads the lines of a code listing into the table, up to the line that
/// ends the listing.
pub fn get_chars_code(lines: &Vec<String>, codes: &mut CodeTable)
    requires
        lines_have_symbols(lines@.map_values(|line: String| line@)),
    ensures
        final(codes)@ == with_lines(old(codes)@, lines@.map_values(|line: String| line@)),
{
    let ghost all = lines@.map_values(|line: String| line@);
    let mut i: usize = 0;
    proof {
        assert(all.skip(0) == all);
    }
    while i < lines.len()
        invariant
            0 <= i <= lines.len(),
            all == lines@.map_values(|line: String| line@),
            lines_have_symbols(all.skip(i as int)),
            with_lines(old(codes)@, all) == with_lines(codes@, all.skip(i as int)),
        decreases lines.len() - i,
    {
        proof {
            assert(all.skip(i as int).drop_first() == all.skip(i as int + 1));
        }
        if ends_listing(&lines[i]) {
            return ;
        }
        get_codes(&lines[i], codes);
        i += 1;
    }
}

/// The code table that a code listing describes.
pub fn decoder(lines: &Vec<String>) -> (codes_map: CodeTable)
    requires
        lines_have_symbols(lines@.map_values(|line: String| line@)),
    ensures
        codes_map@ == with_lines(
            Map::<char, Seq<char>>::empty(),
            lines@.map_values(|line: String| line@),
        ),
{
    let mut codes_map = CodeTable::new();
    get_chars_code(lines, &mut codes_map);
    codes_map
}

/// Writes the listing of a code table.
pub fn header_text(entries: &Vec<(char, String)>) -> (text: String)
    ensures
        text@ == listing_of(entries@),
{
    let mut text = String::new();
    let mut i: usize = 0;
    proof {
        assert(entries@.skip(0) == entries@);
    }
    while i < entries.len()
        invariant
            0 <= i <= entries.len(),
            listing_of(entries@) == text@ + listing_of(entries@.skip(i as int)),
        decreases entries.len() - i,
    {
        push_char(&mut text, entries[i].0);
        push_char(&mut text, ':');
        text.append(entries[i].1.as_str());
        push_char(&mut text, '\n');
        proof {
            let rest = entries@.skip(i as int);
            assert(rest.drop_first() == entries@.skip(i as int + 1));
        }
        i += 1;
    }
    push_char(&mut text, 'e');
    push_char(&mut text, 'n');
    push_char(&mut text, 'c');
    push_char(&mut text, 'o');
    push_char(&mut text, 'd');
    push_char(&mut text, 'i');
    push_char(&mut text, 'n');
    push_char(&mut text, 'g');
    push_char(&mut text, '\n');
    text
}

} // verus!
