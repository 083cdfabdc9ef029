//! x86-64 disassembly of a module's bytes at a virtual address, with each
//! instruction's encoding in spaced upper-case hex and the dumper symbols
//! known at its address.

use vstd::prelude::*;
use std::collections::BTreeMap;
use iced_x86::{Decoder, DecoderOptions, Formatter, Instruction, NasmFormatter};
use crate::image::{ImageError, ModuleImage};
use crate::text::chars_of;

verus! {

broadcast use vstd::laws_cmp::group_laws_cmp;

/// The symbols known at each address: labels such as `client.dll!offset:dwEntityList`.
#[derive(Debug, Default, Clone)]
pub struct SymbolMap {
    /// The labels of each address, in the order they were added.
    pub symbols: BTreeMap<u64, Vec<String>>,
}

impl View for SymbolMap {
    type V = Map<u64, Seq<Seq<char>>>;

    open spec fn view(&self) -> Map<u64, Seq<Seq<char>>> {
        self.symbols@.map_values(|v: Vec<String>| v.deep_view())
    }
}

/// One decoded instruction.
#[derive(Debug, Clone)]
pub struct DecodedInstruction {
    /// The instruction's virtual address.
    pub address: u64,
    /// The instruction's encoding: upper-case hex byte pairs separated by spaces.
    pub bytes: String,
    /// The instruction in NASM syntax.
    pub text: String,
    /// The symbols at the instruction's address, separated by `, `.
    pub symbol: Option<String>,
}

/// A decoded instruction as plain values: address, bytes, text, symbol.
pub type InstructionRow = (u64, Seq<char>, Seq<char>, Option<Seq<char>>);

impl DecodedInstruction {
    /// The plain-value form of the instruction.
    pub open spec fn row(&self) -> InstructionRow {
        (
            self.address,
            self.bytes@,
            self.text@,
            match self.symbol {
                Some(s) => Some(s@),
                None => None,
            },
        )
    }
}

/// The upper-case hex digit of a value below 16.
pub open spec fn hex_digit_upper(n: u8) -> char {
    if n < 10 {
        (0x30 + n) as char
    } else {
        (0x41 + n - 10) as char
    }
}

/// The two upper-case hex digits of a byte, high nibble first.
pub open spec fn hex_pair(b: u8) -> Seq<char> {
    seq![hex_digit_upper(b / 16), hex_digit_upper(b % 16)]
}

/// The upper-case hex encoding of bytes: two digits per byte.
pub open spec fn hex_upper(b: Seq<u8>) -> Seq<char>
    decreases b.len(),
{
    if b.len() == 0 {
        seq![]
    } else {
        hex_upper(b.drop_last()) + hex_pair(b.last())
    }
}

/// The encoding of bytes as upper-case hex pairs separated by single spaces,
/// such as `48 8B 05`.
pub open spec fn spaced_hex(b: Seq<u8>) -> Seq<char>
    decreases b.len(),
{
    if b.len() == 0 {
        seq![]
    } else if b.len() == 1 {
        hex_pair(b[0])
    } else {
        spaced_hex(b.drop_last()) + seq![' '] + hex_pair(b.last())
    }
}

/// Items joined by a separator, as `join` on a slice of strings gives them.
pub open spec fn join(items: Seq<Seq<char>>, sep: Seq<char>) -> Seq<char>
    decreases items.len(),
{
    if items.len() == 0 {
        seq![]
    } else if items.len() == 1 {
        items[0]
    } else {
        join(items.drop_last(), sep) + sep + items.last()
    }
}

/// Encodes bytes as upper-case hex with `hex::encode_upper`, which writes
/// each byte as the digits of its high and then its low nibble from
/// `0123456789ABCDEF`. The contract states exactly that.
#[verifier::external_body]
fn encode_upper(bytes: &[u8]) -> (s: String)
    ensures
        s@ == hex_upper(bytes@),
{
    hex::encode_upper(bytes)
}

/// The length of the instruction that `iced_x86` decodes in 64-bit mode from
/// `code` at `pos`, with instruction pointer `ip`.
pub uninterp spec fn decoded_length(code: Seq<u8>, pos: usize, ip: u64) -> usize;

/// Decodes one instruction with `iced_x86::Decoder` (64-bit, no options) over
/// `code[pos..]` at instruction pointer `ip`, and returns its length. The
/// contract claims that the length is `decoded_length` of the arguments, and,
/// as the decoder's source shows, that at least one byte is consumed while
/// bytes remain (an undecodable sequence still consumes its bytes) and no
/// byte past the end of `code`. Which instruction is decoded is not stated.
#[verifier::external_body]
fn decode_length(code: &[u8], pos: usize, ip: u64) -> (n: usize)
    requires
        pos < code@.len(),
    ensures
        n == decoded_length(code@, pos, ip),
        1 <= n,
        pos + n <= code@.len(),
{
    let mut decoder = Decoder::with_ip(64, &code[pos..], ip, DecoderOptions::NONE);
    let mut instruction = Instruction::default();
    decoder.decode_out(&mut instruction);
    instruction.len()
}

/// The NASM text of the instruction that `iced_x86` decodes in 64-bit mode
/// from `code` at `pos`, with instruction pointer `ip`, formatted with the
/// digit separator `` ` ``.
pub uninterp spec fn nasm_text(code: Seq<u8>, pos: usize, ip: u64) -> Seq<char>;

/// Decodes one instruction as `decode_length` does and formats it with
/// `iced_x86::NasmFormatter`, digit separator `` ` ``. The contract claims
/// only that the text is `nasm_text` of the arguments; the text itself is
/// not stated.
#[verifier::external_body]
fn format_nasm(code: &[u8], pos: usize, ip: u64) -> (s: String)
    requires
        pos < code@.len(),
    ensures
        s@ == nasm_text(code@, pos, ip),
{
    let mut decoder = Decoder::with_ip(64, &code[pos..], ip, DecoderOptions::NONE);
    let mut instruction = Instruction::default();
    decoder.decode_out(&mut instruction);
    let mut formatter = NasmFormatter::new();
    formatter.options_mut().set_digit_separator("`");
    let mut output = String::new();
    formatter.format(&instruction, &mut output);
    output
}

/// The instructions decoded from `code` starting at offset `pos`, where
/// offset 0 lies at `start_va`: each instruction's address, spaced hex
/// bytes, NASM text and joined symbols; decoding goes on right after each
/// instruction until the bytes run out.
pub open spec fn decode_listing(
    code: Seq<u8>,
    start_va: u64,
    pos: int,
    symbols: Map<u64, Seq<Seq<char>>>,
) -> Seq<InstructionRow>
    decreases code.len() - pos,
{
    if pos < 0 || pos >= code.len() {
        seq![]
    } else {
        let ip = start_va.wrapping_add(pos as u64);
        let n = decoded_length(code, pos as usize, ip);
        if n < 1 {
            seq![]
        } else {
            let end = if pos + n <= code.len() {
                pos + n
            } else {
                code.len() as int
            };
            seq![
                (
                    ip,
                    spaced_hex(code.subrange(pos, end)),
                    nasm_text(code, pos as usize, ip),
                    if symbols.contains_key(ip) {
                        Some(join(symbols[ip], seq![',', ' ']))
                    } else {
                        None
                    },
                ),
            ] + decode_listing(code, start_va, end, symbols)
        }
    }
}

proof fn lemma_hex_upper_len(b: Seq<u8>)
    ensures
        hex_upper(b).len() == 2 * b.len(),
    decreases b.len(),
{
    if b.len() > 0 {
        lemma_hex_upper_len(b.drop_last());
    }
}

proof fn lemma_hex_upper_index(b: Seq<u8>, k: int)
    requires
        0 <= k < b.len(),
    ensures
        hex_upper(b)[2 * k] == hex_pair(b[k])[0],
        hex_upper(b)[2 * k + 1] == hex_pair(b[k])[1],
    decreases b.len(),
{
    lemma_hex_upper_len(b.drop_last());
    if k < b.len() - 1 {
        lemma_hex_upper_index(b.drop_last(), k);
    }
}

/// The encodings of decoded instructions, in order.
pub open spec fn encodings(v: Seq<DecodedInstruction>) -> Seq<Seq<char>> {
    v.map_values(|d: DecodedInstruction| d.bytes@)
}

proof fn lemma_join_push(items: Seq<Seq<char>>, x: Seq<char>, sep: Seq<char>)
    ensures
        join(items.push(x), sep) == (if items.len() == 0 {
            x
        } else {
            join(items, sep) + sep + x
        }),
{
    let t = items.push(x);
    assert(t.drop_last() =~= items);
    assert(t.last() == x);
    if items.len() == 0 {
        assert(t[0] == x);
    }
}

proof fn lemma_spaced_hex_concat(a: Seq<u8>, b: Seq<u8>)
    requires
        a.len() > 0,
        b.len() > 0,
    ensures
        spaced_hex(a + b) == spaced_hex(a) + seq![' '] + spaced_hex(b),
    decreases b.len(),
{
    let ab = a + b;
    assert(ab.last() == b.last());
    if b.len() == 1 {
        assert(ab.drop_last() =~= a);
        assert(spaced_hex(b) == hex_pair(b[0]));
        assert(b[0] == b.last());
    } else {
        assert(ab.drop_last() =~= a + b.drop_last());
        lemma_spaced_hex_concat(a, b.drop_last());
        assert(spaced_hex(a) + seq![' '] + spaced_hex(b.drop_last()) + seq![' '] + hex_pair(b.last()) =~= spaced_hex(
            a,
        ) + seq![' '] + (spaced_hex(b.drop_last()) + seq![' '] + hex_pair(b.last())));
    }
}

/// Formats bytes as spaced upper-case hex pairs.
fn spaced_hex_of(bytes: &[u8]) -> (s: String)
    ensures
        s@ == spaced_hex(bytes@),
{
    let encoded = encode_upper(bytes);
    let digits = chars_of(encoded.as_str());
    proof {
        lemma_hex_upper_len(bytes@);
    }
    let n = bytes.len();
    let dn = digits.len();
    let mut out: Vec<char> = Vec::new();
    let mut k: usize = 0;
    while k < n
        invariant
            n == bytes@.len(),
            dn == digits@.len(),
            digits@ == hex_upper(bytes@),
            digits@.len() == 2 * n,
            k <= n,
            out@ == spaced_hex(bytes@.subrange(0, k as int)),
        decreases n - k,
    {
        proof {
            lemma_hex_upper_index(bytes@, k as int);
        }
        if k > 0 {
            out.push(' ');
        }
        out.push(digits[2 * k]);
        out.push(digits[2 * k + 1]);
        proof {
            let next = bytes@.subrange(0, k + 1);
            assert(next.drop_last() =~= bytes@.subrange(0, k as int));
            assert(next.last() == bytes@[k as int]);
            if k > 0 {
                assert(out@ =~= spaced_hex(next.drop_last()) + seq![' '] + hex_pair(next.last()));
            } else {
                assert(out@ =~= hex_pair(next[0]));
            }
        }
        k = k + 1;
    }
    assert(bytes@.subrange(0, n as int) =~= bytes@);
    crate::text::string_from_chars(out)
}

/// Joins strings with a separator.
pub fn join_strings(items: &Vec<String>, sep: &str) -> (s: String)
    ensures
        s@ == join(items.deep_view(), sep@),
{
    let n = items.len();
    let mut s = String::new();
    let ghost view = items.deep_view();
    let mut k: usize = 0;
    while k < n
        invariant
            n == items@.len(),
            view == items.deep_view(),
            k <= n,
            s@ == join(view.subrange(0, k as int), sep@),
        decreases n - k,
    {
        if k > 0 {
            s.append(sep);
        }
        s.append(items[k].as_str());
        proof {
            let next = view.subrange(0, k + 1);
            assert(next.drop_last() =~= view.subrange(0, k as int));
            assert(next.last() == items@[k as int]@);
            if k == 0 {
                assert(s@ =~= next[0]);
            }
        }
        k = k + 1;
    }
    assert(view.subrange(0, n as int) =~= view);
    s
}

/// Disassembles at most `len` bytes at `start_va` as x86-64 code: each
/// instruction's address, encoding, NASM text and the dumper symbols at its
/// address. Fails where `bytes_at_va` fails.
pub fn disassemble(image: &ModuleImage, start_va: u64, len: u64, symbols: &SymbolMap) -> (r: Result<
    Vec<DecodedInstruction>,
    ImageError,
>)
    requires
        image.read_in_bounds(start_va, len),
    ensures
        match image.spec_read_range(start_va, len) {
            Ok((s, e)) => r matches Ok(v) && v@.map_values(|d: DecodedInstruction| d.row())
                == decode_listing(image.bytes@.subrange(s, e), start_va, 0, symbols@) && (v@.len() == 0 <==> s
                == e) && join(encodings(v@), seq![' ']) == spaced_hex(image.bytes@.subrange(s, e)),
            Err(e) => r matches Err(x) && x == e,
        },
        r matches Ok(v) ==> image.spec_read_range(start_va, len) matches Ok((s, e)) && forall|i: int|
            0 <= i < v@.len() ==> {
                let d = #[trigger] v@[i];
                let off = d.address.wrapping_sub(start_va);
                &&& off < e - s
                &&& d.text@ == nasm_text(image.bytes@.subrange(s, e), off as usize, d.address)
            },
{
    let code = match image.bytes_at_va(start_va, len) {
        Ok(c) => c,
        Err(e) => return Err(e),
    };
    let n = code.len();
    let ghost listing = decode_listing(code@, start_va, 0, symbols@);
    let mut out: Vec<DecodedInstruction> = Vec::new();
    let mut pos: usize = 0;
    while pos < n
        invariant
            n == code@.len(),
            pos <= n,
            listing == decode_listing(code@, start_va, 0, symbols@),
            out@.map_values(|d: DecodedInstruction| d.row()) + decode_listing(code@, start_va, pos as int, symbols@)
                == listing,
            out@.len() == 0 <==> pos == 0,
            join(encodings(out@), seq![' ']) == spaced_hex(code@.subrange(0, pos as int)),
        decreases n - pos,
    {
        let ip = start_va.wrapping_add(pos as u64);
        let step = decode_length(code, pos, ip);
        let text = format_nasm(code, pos, ip);
        let end = pos + step;
        let encoding = spaced_hex_of(vstd::slice::slice_subrange(code, pos, end));
        let symbol = match symbols.symbols.get(&ip) {
            Some(items) => Some(join_strings(items, ", ")),
            None => None,
        };
        proof {
            reveal_strlit(", ");
            assert(seq![',', ' '] =~= ", "@);
        }
        let d = DecodedInstruction { address: ip, bytes: encoding, text, symbol };
        let ghost before = out@.map_values(|d: DecodedInstruction| d.row());
        let ghost enc_before = encodings(out@);
        out.push(d);
        proof {
            let piece = code@.subrange(pos as int, end as int);
            assert(piece.len() >= 1);
            assert(encodings(out@) =~= enc_before.push(spaced_hex(piece)));
            lemma_join_push(enc_before, spaced_hex(piece), seq![' ']);
            if pos > 0 {
                lemma_spaced_hex_concat(code@.subrange(0, pos as int), piece);
            } else {
                assert(code@.subrange(0, 0) =~= Seq::<u8>::empty());
            }
            assert(code@.subrange(0, pos as int) + piece =~= code@.subrange(0, end as int));
        }
        proof {
            let rest = decode_listing(code@, start_va, pos + step, symbols@);
            assert(decode_listing(code@, start_va, pos as int, symbols@) == seq![d.row()] + rest);
            assert(out@.map_values(|d: DecodedInstruction| d.row()) =~= before.push(d.row()));
            assert(before.push(d.row()) + rest =~= before + (seq![d.row()] + rest));
        }
        pos = end;
    }
    proof {
        assert(code@.subrange(0, n as int) =~= code@);
        crate::image::law_read_within_request(image, start_va, len);
        let offs = law_listing_decodes_at_own_address(code@, start_va, 0, symbols@);
        let rows = out@.map_values(|d: DecodedInstruction| d.row());
        assert(rows == listing);
        assert forall|i: int| 0 <= i < out@.len() implies {
            let d = #[trigger] out@[i];
            let off = d.address.wrapping_sub(start_va);
            &&& off < n
            &&& d.text@ == nasm_text(code@, off as usize, d.address)
        } by {
            assert(rows[i] == out@[i].row());
            assert(listing[i] == rows[i]);
            let o = offs[i];
            assert(0 <= o < n);
            assert(out@[i].address == start_va.wrapping_add(o as u64));
            assert(out@[i].address.wrapping_sub(start_va) == o as u64);
        }
    }
    Ok(out)
}


/// Disassembly: every decoded instruction consumes at least one byte, so a
/// listing holds at most as many instructions as bytes were read, and a
/// listing that is not empty starts at the address where decoding began.
pub proof fn law_listing_bounds(code: Seq<u8>, start_va: u64, pos: int, symbols: Map<u64, Seq<Seq<char>>>)
    requires
        0 <= pos,
    ensures
        decode_listing(code, start_va, pos, symbols).len() <= (if pos <= code.len() {
            code.len() - pos
        } else {
            0
        }),
        decode_listing(code, start_va, pos, symbols).len() > 0 ==> decode_listing(
            code,
            start_va,
            pos,
            symbols,
        )[0].0 == start_va.wrapping_add(pos as u64),
    decreases code.len() - pos,
{
    if pos < code.len() {
        let ip = start_va.wrapping_add(pos as u64);
        let n = decoded_length(code, pos as usize, ip);
        if n >= 1 {
            let end = if pos + n <= code.len() {
                pos + n
            } else {
                code.len() as int
            };
            law_listing_bounds(code, start_va, end, symbols);
        }
    }
}


/// Disassembly decodes each instruction where it lies: the listing from
/// offset `pos` starts at `pos`, each instruction sits at the offset right
/// after the previous one (its offset plus its decoded length), its address
/// is `start_va` plus its offset, and its text is the NASM formatting of the
/// instruction decoded at that offset with the instruction pointer equal to
/// that address, so relative targets are resolved from the instruction's
/// own address. The result gives the offset of each instruction.
pub proof fn law_listing_decodes_at_own_address(
    code: Seq<u8>,
    start_va: u64,
    pos: int,
    symbols: Map<u64, Seq<Seq<char>>>,
) -> (offs: Seq<int>)
    requires
        0 <= pos,
    ensures
        offs.len() == decode_listing(code, start_va, pos, symbols).len(),
        offs.len() > 0 ==> offs[0] == pos,
        forall|i: int|
            #![trigger offs[i]]
            0 <= i < offs.len() ==> {
                let row = decode_listing(code, start_va, pos, symbols)[i];
                &&& pos <= offs[i] < code.len()
                &&& row.0 == start_va.wrapping_add(offs[i] as u64)
                &&& row.2 == nasm_text(code, offs[i] as usize, row.0)
                &&& (i + 1 < offs.len() ==> offs[i + 1] == offs[i] + decoded_length(code, offs[i] as usize, row.0))
            },
    decreases code.len() - pos,
{
    let l = decode_listing(code, start_va, pos, symbols);
    if pos >= code.len() {
        seq![]
    } else {
        let ip = start_va.wrapping_add(pos as u64);
        let n = decoded_length(code, pos as usize, ip);
        if n < 1 {
            seq![]
        } else {
            let end = if pos + n <= code.len() {
                pos + n
            } else {
                code.len() as int
            };
            let rest = law_listing_decodes_at_own_address(code, start_va, end, symbols);
            let tail = decode_listing(code, start_va, end, symbols);
            assert(l == seq![l[0]] + tail);
            let offs = seq![pos] + rest;
            assert forall|i: int| #![trigger offs[i]] 0 <= i < offs.len() implies {
                let row = l[i];
                &&& pos <= offs[i] < code.len()
                &&& row.0 == start_va.wrapping_add(offs[i] as u64)
                &&& row.2 == nasm_text(code, offs[i] as usize, row.0)
                &&& (i + 1 < offs.len() ==> offs[i + 1] == offs[i] + decoded_length(code, offs[i] as usize, row.0))
            } by {
                if i > 0 {
                    assert(l[i] == tail[i - 1]);
                    assert(offs[i] == rest[i - 1]);
                    if i + 1 < offs.len() {
                        assert(offs[i + 1] == rest[i]);
                    }
                } else {
                    assert(offs[0] == pos);
                    assert(l[0].0 == ip);
                    assert(l[0].2 == nasm_text(code, pos as usize, ip));
                    if offs.len() > 1 {
                        assert(offs[1] == rest[0]);
                        assert(tail.len() > 0);
                        assert(end < code.len());
                        assert(end == pos + n);
                    }
                }
            }
            offs
        }
    }
}

} // verus!
