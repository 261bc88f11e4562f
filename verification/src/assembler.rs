//! Tiny assemblers: readable mnemonic text to program bytes.
//!
//! Same shape for the SAP-1 and the SAP-2: each takes source text (one
//! instruction per line, `;` comments, blank lines ok, numbers decimal or
//! `0x` hex) and returns the bytes or a line-numbered error. No labels, no
//! macros: hand-counted addresses.
//!
//! The text is a sequence of characters throughout: [`lines_of`] cuts it
//! into lines, [`code_of`] drops the comment of a line, [`words_of`] cuts
//! the rest into words, and [`parsed_number`] reads a number.

use vstd::prelude::*;

use crate::control;
use crate::utils;

verus! {

/// The lines of a text, without their line feeds.
pub open spec fn lines_of(text: Seq<char>) -> Seq<Seq<char>>
    decreases text.len(),
{
    if text.len() == 0 {
        seq![Seq::empty()]
    } else {
        let lines = lines_of(text.drop_last());
        if text.last() == '\n' {
            lines.push(Seq::empty())
        } else {
            lines.drop_last().push(lines.last().push(text.last()))
        }
    }
}

/// A line up to its first semicolon.
pub open spec fn code_of(line: Seq<char>) -> Seq<char>
    decreases line.len(),
{
    if line.len() == 0 || line[0] == ';' {
        Seq::empty()
    } else {
        seq![line[0]] + code_of(line.drop_first())
    }
}

/// Whether a character is white space, in all of Unicode.
pub open spec fn is_space(c: char) -> bool {
    ||| 0x09 <= c as u32 <= 0x0D
    ||| c as u32 == 0x20
    ||| c as u32 == 0x85
    ||| c as u32 == 0xA0
    ||| c as u32 == 0x1680
    ||| 0x2000 <= c as u32 <= 0x200A
    ||| c as u32 == 0x2028
    ||| c as u32 == 0x2029
    ||| c as u32 == 0x202F
    ||| c as u32 == 0x205F
    ||| c as u32 == 0x3000
}

/// The words of a line: its longest stretches without white space.
pub open spec fn words_of(code: Seq<char>) -> Seq<Seq<char>>
    decreases code.len(),
{
    if code.len() == 0 {
        Seq::empty()
    } else {
        let words = words_of(code.drop_last());
        if is_space(code.last()) {
            words
        } else if code.len() == 1 || is_space(code[code.len() - 2]) {
            words.push(seq![code.last()])
        } else {
            words.drop_last().push(words.last().push(code.last()))
        }
    }
}

/// A letter from `a` to `z` in upper case; any other character as it is.
pub open spec fn upper(c: char) -> char {
    if 'a' <= c <= 'z' {
        (c as u32 - 32) as char
    } else {
        c
    }
}

/// A word in upper case.
pub open spec fn uppercase(word: Seq<char>) -> Seq<char> {
    Seq::new(word.len(), |i: int| upper(word[i]))
}

/// A decimal digit.
pub open spec fn digit(value: nat) -> char {
    (48 + value) as char
}

/// A number in decimal.
pub open spec fn decimal(value: nat) -> Seq<char>
    decreases value,
{
    if value < 10 {
        seq![digit(value)]
    } else {
        decimal(value / 10).push(digit(value % 10))
    }
}

/// The value of a digit, if it is one of the radix.
pub open spec fn digit_value(c: char, radix: nat) -> Option<nat> {
    let value: int = if '0' <= c <= '9' {
        c as u32 - 48
    } else if 'a' <= c <= 'z' {
        c as u32 - 97 + 10
    } else if 'A' <= c <= 'Z' {
        c as u32 - 65 + 10
    } else {
        36
    };
    if value < radix {
        Some(value as nat)
    } else {
        None
    }
}

/// The value of a row of digits, if they all are digits of the radix.
pub open spec fn digits_value(digits: Seq<char>, radix: nat) -> Option<nat>
    decreases digits.len(),
{
    if digits.len() == 0 {
        Some(0)
    } else {
        match (digits_value(digits.drop_last(), radix), digit_value(digits.last(), radix)) {
            (Some(high), Some(low)) => Some(high * radix + low),
            _ => None,
        }
    }
}

/// A value of some digits as a 16-bit number, if there are any and it fits.
pub open spec fn fitting(value: Option<nat>, digits: nat) -> Option<u16> {
    match value {
        Some(number) => if digits > 0 && number <= 0xFFFF {
            Some(number as u16)
        } else {
            None
        },
        None => None,
    }
}

/// The number that a word spells: decimal, or hexadecimal behind `0x` or
/// `0X`; a plus sign may precede the digits. There must be at least one
/// digit, and the value must fit in 16 bits.
pub open spec fn parsed_number(word: Seq<char>) -> Option<u16> {
    let hex = word.len() >= 2 && word[0] == '0' && (word[1] == 'x' || word[1] == 'X');
    let signed = if hex {
        word.skip(2)
    } else {
        word
    };
    let digits = if signed.len() > 0 && signed[0] == '+' {
        signed.skip(1)
    } else {
        signed
    };
    let radix: nat = if hex {
        16
    } else {
        10
    };
    fitting(digits_value(digits, radix), digits.len())
}

/// The start of every error message.
pub open spec fn at_line(number: nat) -> Seq<char> {
    "line "@ + decimal(number) + ": "@
}

/// The error for a word that is no number.
pub open spec fn bad_number(number: nat, word: Seq<char>) -> Seq<char> {
    at_line(number) + "bad number `"@ + word + "`"@
}

/// The error for a number that does not fit in a byte.
pub open spec fn wide_byte(number: nat, value: u16) -> Seq<char> {
    at_line(number) + "byte out of range `"@ + decimal(value as nat) + "`"@
}

/// The error for an unknown mnemonic.
pub open spec fn unknown(number: nat, mnemonic: Seq<char>) -> Seq<char> {
    at_line(number) + "unknown instruction `"@ + mnemonic + "`"@
}

/// A word read as a byte.
pub open spec fn byte_operand(word: Seq<char>, number: nat) -> Result<u8, Seq<char>> {
    match parsed_number(word) {
        None => Err(bad_number(number, word)),
        Some(value) => if value > 0xFF {
            Err(wide_byte(number, value))
        } else {
            Ok(value as u8)
        },
    }
}

/// Words read as data bytes, up to the first one that is none.
pub open spec fn data_bytes(words: Seq<Seq<char>>, number: nat) -> Result<Seq<u8>, Seq<char>>
    decreases words.len(),
{
    if words.len() == 0 {
        Ok(Seq::empty())
    } else {
        match data_bytes(words.drop_last(), number) {
            Ok(bytes) => match byte_operand(words.last(), number) {
                Ok(byte) => Ok(bytes.push(byte)),
                Err(message) => Err(message),
            },
            Err(message) => Err(message),
        }
    }
}

/// The `DB` directive: raw data bytes.
pub open spec fn directive(operands: Seq<Seq<char>>, number: nat) -> Result<Seq<u8>, Seq<char>> {
    if operands.len() == 0 {
        Err(at_line(number) + "DB needs at least one byte"@)
    } else {
        data_bytes(operands, number)
    }
}

/// The mnemonic of a SAP-1 instruction; its number is the high nibble of
/// its opcode, but for the last one.
pub open spec fn sap1_mnemonic(number: int) -> Seq<char> {
    if number == 0 {
        "NOP"@
    } else if number == 1 {
        "LDA"@
    } else if number == 2 {
        "ADD"@
    } else if number == 3 {
        "SUB"@
    } else if number == 4 {
        "STA"@
    } else if number == 5 {
        "LDI"@
    } else if number == 6 {
        "JMP"@
    } else if number == 7 {
        "JZ"@
    } else if number == 8 {
        "JC"@
    } else {
        "HLT"@
    }
}

/// The mnemonic of a SAP-2 instruction.
pub open spec fn sap2_mnemonic(instr: int) -> Seq<char> {
    if instr == control::IN_NOP {
        "NOP"@
    } else if instr == control::IN_LDA {
        "LDA"@
    } else if instr == control::IN_STA {
        "STA"@
    } else if instr == control::IN_MVIA {
        "MVIA"@
    } else if instr == control::IN_MVIB {
        "MVIB"@
    } else if instr == control::IN_ADD {
        "ADD"@
    } else if instr == control::IN_SUB {
        "SUB"@
    } else if instr == control::IN_ANA {
        "ANA"@
    } else if instr == control::IN_ORA {
        "ORA"@
    } else if instr == control::IN_XRA {
        "XRA"@
    } else if instr == control::IN_CMA {
        "CMA"@
    } else if instr == control::IN_INRA {
        "INRA"@
    } else if instr == control::IN_DCRA {
        "DCRA"@
    } else if instr == control::IN_IN {
        "IN"@
    } else if instr == control::IN_OUT {
        "OUT"@
    } else if instr == control::IN_JMP {
        "JMP"@
    } else if instr == control::IN_JZ {
        "JZ"@
    } else if instr == control::IN_JNZ {
        "JNZ"@
    } else if instr == control::IN_JM {
        "JM"@
    } else if instr == control::IN_CALL {
        "CALL"@
    } else if instr == control::IN_RET {
        "RET"@
    } else if instr == control::IN_PSHA {
        "PSHA"@
    } else if instr == control::IN_POPA {
        "POPA"@
    } else {
        "HLT"@
    }
}

/// The first SAP-1 instruction with a mnemonic, from `number` on.
pub open spec fn sap1_named(mnemonic: Seq<char>, number: int) -> Option<int>
    decreases 10 - number,
{
    if number >= 10 {
        None
    } else if sap1_mnemonic(number) == mnemonic {
        Some(number)
    } else {
        sap1_named(mnemonic, number + 1)
    }
}

/// The first SAP-2 instruction with a mnemonic, from `instr` on.
pub open spec fn sap2_named(mnemonic: Seq<char>, instr: int) -> Option<int>
    decreases 24 - instr,
{
    if instr >= 24 {
        None
    } else if sap2_mnemonic(instr) == mnemonic {
        Some(instr)
    } else {
        sap2_named(mnemonic, instr + 1)
    }
}

/// The bytes of a SAP-1 instruction: one, with a 4-bit address in the low
/// nibble. NOP and HLT take no notice of operands.
pub open spec fn sap1_encoded(instr: int, operands: Seq<Seq<char>>, number: nat) -> Result<
    Seq<u8>,
    Seq<char>,
> {
    if instr == 0 {
        Ok(seq![0x00u8])
    } else if instr == 9 {
        Ok(seq![0xF0u8])
    } else if operands.len() != 1 {
        Err(at_line(number) + "one address expected"@)
    } else {
        match parsed_number(operands[0]) {
            None => Err(bad_number(number, operands[0])),
            Some(value) => if value > 0xF {
                Err(
                    at_line(number) + "address out of range `"@ + decimal(value as nat) + "`"@,
                )
            } else {
                Ok(seq![(16 * instr + value) as u8])
            },
        }
    }
}

/// The bytes of a SAP-2 instruction: its opcode, then its operand, the low
/// byte of an address first. NOP and HLT take no notice of operands.
pub open spec fn sap2_encoded(instr: int, operands: Seq<Seq<char>>, number: nat) -> Result<
    Seq<u8>,
    Seq<char>,
> {
    let opcode = control::opcode_of(instr);
    let quoted = at_line(number) + "`"@ + sap2_mnemonic(instr);
    if instr == control::IN_NOP || instr == control::IN_HLT {
        Ok(seq![opcode])
    } else if control::has_address(instr) {
        if operands.len() != 1 {
            Err(quoted + "` takes one address"@)
        } else {
            match parsed_number(operands[0]) {
                None => Err(bad_number(number, operands[0])),
                Some(value) => Ok(seq![opcode, utils::low_byte(value), utils::high_byte(value)]),
            }
        }
    } else if control::has_operand(instr) {
        if operands.len() != 1 {
            Err(quoted + "` takes one byte"@)
        } else {
            match byte_operand(operands[0], number) {
                Ok(byte) => Ok(seq![opcode, byte]),
                Err(message) => Err(message),
            }
        }
    } else if operands.len() == 0 || (operands.len() == 1 && uppercase(operands[0]) == "B"@) {
        Ok(seq![opcode])
    } else {
        Err(quoted + "` takes `B` or nothing"@)
    }
}

/// The bytes of one line for the SAP-1 or the SAP-2.
pub open spec fn assembled_line(line: Seq<char>, number: nat, sap2: bool) -> Result<
    Seq<u8>,
    Seq<char>,
> {
    let words = words_of(code_of(line));
    if words.len() == 0 {
        Ok(Seq::empty())
    } else {
        let mnemonic = uppercase(words[0]);
        let operands = words.skip(1);
        let named = if sap2 {
            sap2_named(mnemonic, 0)
        } else {
            sap1_named(mnemonic, 0)
        };
        match named {
            Some(instr) => if sap2 {
                sap2_encoded(instr, operands, number)
            } else {
                sap1_encoded(instr, operands, number)
            },
            None => if mnemonic == "DB"@ {
                directive(operands, number)
            } else {
                Err(unknown(number, mnemonic))
            },
        }
    }
}

/// The bytes of the lines in order, or the error of the first bad one.
pub open spec fn assembled(lines: Seq<Seq<char>>, sap2: bool) -> Result<Seq<u8>, Seq<char>>
    decreases lines.len(),
{
    if lines.len() == 0 {
        Ok(Seq::empty())
    } else {
        match assembled(lines.drop_last(), sap2) {
            Ok(bytes) => match assembled_line(lines.last(), lines.len(), sap2) {
                Ok(more) => Ok(bytes + more),
                Err(message) => Err(message),
            },
            Err(message) => Err(message),
        }
    }
}

/// Whether an outcome is the one that the text asks for.
pub open spec fn outcome_is(
    outcome: Result<Vec<u8>, String>,
    wanted: Result<Seq<u8>, Seq<char>>,
) -> bool {
    match wanted {
        Ok(bytes) => outcome is Ok && outcome->Ok_0@ == bytes,
        Err(message) => outcome is Err && outcome->Err_0@ == message,
    }
}

/// A bad line is reported whatever follows it: the error is that of the
/// first bad line.
pub proof fn law_first_error(lines: Seq<Seq<char>>, count: int, sap2: bool)
    requires
        0 <= count <= lines.len(),
        assembled(lines.take(count), sap2) is Err,
    ensures
        assembled(lines, sap2) == assembled(lines.take(count), sap2),
    decreases lines.len() - count,
{
    if count == lines.len() {
        assert(lines.take(count) =~= lines);
    } else {
        assert(lines.take(count + 1).drop_last() =~= lines.take(count));
        law_first_error(lines, count + 1, sap2);
    }
}

/// A comment does not matter: a line assembles like its part before the
/// semicolon.
pub proof fn law_comment_ignored(code: Seq<char>, comment: Seq<char>, number: nat, sap2: bool)
    ensures
        assembled_line(code + seq![';'] + comment, number, sap2) == assembled_line(
            code,
            number,
            sap2,
        ),
{
    lemma_code_before_comment(code, comment);
}

/// The code of a line ends where its comment starts.
proof fn lemma_code_before_comment(code: Seq<char>, comment: Seq<char>)
    ensures
        code_of(code + seq![';'] + comment) == code_of(code),
    decreases code.len(),
{
    let line = code + seq![';'] + comment;
    if code.len() > 0 && code[0] != ';' {
        lemma_code_before_comment(code.drop_first(), comment);
        assert(line.drop_first() =~= code.drop_first() + seq![';'] + comment);
    }
}

/// A line with nothing but white space before its comment adds nothing.
pub proof fn law_blank_line(line: Seq<char>, number: nat, sap2: bool)
    requires
        forall|i: int| 0 <= i < code_of(line).len() ==> is_space(#[trigger] code_of(line)[i]),
    ensures
        assembled_line(line, number, sap2) == Ok::<Seq<u8>, Seq<char>>(Seq::empty()),
{
    lemma_blank_words(code_of(line));
}

/// White space holds no words.
proof fn lemma_blank_words(code: Seq<char>)
    requires
        forall|i: int| 0 <= i < code.len() ==> is_space(#[trigger] code[i]),
    ensures
        words_of(code) == Seq::<Seq<char>>::empty(),
    decreases code.len(),
{
    if code.len() > 0 {
        assert forall|i: int| 0 <= i < code.len() - 1 implies is_space(
            #[trigger] code.drop_last()[i],
        ) by {
            assert(code.drop_last()[i] == code[i]);
        }
        lemma_blank_words(code.drop_last());
        assert(is_space(code[code.len() - 1]));
    }
}

/// A number written in decimal reads back as itself.
pub proof fn law_decimal_reads_back(value: nat)
    requires
        value <= 0xFFFF,
    ensures
        parsed_number(decimal(value)) == Some(value as u16),
{
    lemma_decimal_value(value);
    let word = decimal(value);
    assert(word[0] != '+' && !(word.len() >= 2 && (word[1] == 'x' || word[1] == 'X')));
}

/// The digits of a number have its value.
proof fn lemma_decimal_value(value: nat)
    ensures
        decimal(value).len() > 0,
        digits_value(decimal(value), 10) == Some(value),
        forall|i: int|
            0 <= i < decimal(value).len() ==> '0' <= (#[trigger] decimal(value)[i]) <= '9',
    decreases value,
{
    if value < 10 {
        assert(decimal(value).drop_last() =~= Seq::empty());
        assert(digits_value(Seq::empty(), 10) == Some(0nat));
    } else {
        lemma_decimal_value(value / 10);
        assert(decimal(value).drop_last() =~= decimal(value / 10));
        assert forall|i: int| 0 <= i < decimal(value).len() implies '0' <= (
        #[trigger] decimal(value)[i]) <= '9' by {
            if i < decimal(value / 10).len() {
                assert(decimal(value)[i] == decimal(value / 10)[i]);
            }
        }
    }
}

/// A number that tells short words apart.
spec fn fingerprint(word: Seq<char>) -> int {
    let third = if word.len() > 2 {
        word[2] as int
    } else {
        0
    };
    let fourth = if word.len() > 3 {
        word[3] as int
    } else {
        0
    };
    word[0] as int + 128 * word[1] as int + 16384 * third + 2097152 * fourth
}

/// The mnemonics of the SAP-2 instructions all differ.
proof fn lemma_mnemonics_differ(instr: int, other: int)
    requires
        0 <= instr < other < 24,
    ensures
        sap2_mnemonic(instr) != sap2_mnemonic(other),
{
    reveal_strlit("NOP");
    reveal_strlit("LDA");
    reveal_strlit("STA");
    reveal_strlit("MVIA");
    reveal_strlit("MVIB");
    reveal_strlit("ADD");
    reveal_strlit("SUB");
    reveal_strlit("ANA");
    reveal_strlit("ORA");
    reveal_strlit("XRA");
    reveal_strlit("CMA");
    reveal_strlit("INRA");
    reveal_strlit("DCRA");
    reveal_strlit("IN");
    reveal_strlit("OUT");
    reveal_strlit("JMP");
    reveal_strlit("JZ");
    reveal_strlit("JNZ");
    reveal_strlit("JM");
    reveal_strlit("CALL");
    reveal_strlit("RET");
    reveal_strlit("PSHA");
    reveal_strlit("POPA");
    reveal_strlit("HLT");
    assert(fingerprint(sap2_mnemonic(instr)) != fingerprint(sap2_mnemonic(other)));
}

/// A search that starts at or before an instruction finds it.
proof fn lemma_mnemonic_found(instr: int, start: int)
    requires
        0 <= start <= instr < 24,
    ensures
        sap2_named(sap2_mnemonic(instr), start) == Some(instr),
    decreases instr - start,
{
    if start < instr {
        lemma_mnemonics_differ(start, instr);
        lemma_mnemonic_found(instr, start + 1);
    }
}

/// A mnemonic names one instruction, and the machine decodes what the
/// assembler emits for it: the first byte is decoded to the instruction,
/// and the operand bytes that the machine fetches follow.
pub proof fn law_mnemonic_decodes(instr: int, operands: Seq<Seq<char>>, number: nat)
    requires
        0 <= instr < 24,
    ensures
        sap2_named(sap2_mnemonic(instr), 0) == Some(instr),
        sap2_encoded(instr, operands, number) matches Ok(bytes) ==> {
            &&& bytes.len() == if control::has_address(instr) {
                3
            } else if control::has_operand(instr) {
                2
            } else {
                1int
            }
            &&& control::instruction_of(bytes[0]) == Some(instr)
            &&& control::has_address(instr) ==> parsed_number(operands[0]) == Some(
                utils::word_from(bytes[1], bytes[2]),
            )
            &&& bytes.len() == 2 ==> parsed_number(operands[0]) == Some(bytes[1] as u16)
        },
{
    lemma_mnemonic_found(instr, 0);
    control::law_opcode_encodes(instr);
    if sap2_encoded(instr, operands, number) is Ok && control::has_address(instr) {
        let value = parsed_number(operands[0])->0;
        utils::law_word_split(value);
    }
}

/// The characters of a text.
fn characters(source: &str) -> (text: Vec<char>)
    ensures
        text@ == source@,
{
    let mut text: Vec<char> = Vec::new();
    for c in it: source.chars()
        invariant
            it.seq() == source@,
            text@ == source@.take(it.index()),
    {
        text.push(c);
    }
    assert(source@.take(source@.len() as int) =~= source@);
    text
}

/// Whether a character is white space.
fn space(c: char) -> (r: bool)
    ensures
        r == is_space(c),
{
    let code = c as u32;
    (0x09 <= code && code <= 0x0D) || code == 0x20 || code == 0x85 || code == 0xA0 || code == 0x1680
        || (0x2000 <= code && code <= 0x200A) || code == 0x2028 || code == 0x2029 || code == 0x202F
        || code == 0x205F || code == 0x3000
}

/// A stretch of a text.
#[derive(Clone, Copy)]
struct Word {
    start: usize,
    end: usize,
}

impl Word {
    /// Whether the stretch lies inside a text.
    spec fn inside(self, text: Seq<char>) -> bool {
        self.start <= self.end <= text.len()
    }

    /// The characters of the stretch.
    spec fn of(self, text: Seq<char>) -> Seq<char> {
        text.subrange(self.start as int, self.end as int)
    }
}

/// The characters of several stretches.
spec fn texts(words: Seq<Word>, text: Seq<char>) -> Seq<Seq<char>> {
    Seq::new(words.len(), |i: int| words[i].of(text))
}

/// Whether all stretches lie inside a text.
spec fn all_inside(words: Seq<Word>, text: Seq<char>) -> bool {
    forall|i: int| 0 <= i < words.len() ==> (#[trigger] words[i]).inside(text)
}

/// Where the code of a line ends: at its first semicolon, or with it.
fn code_end(text: &Vec<char>, start: usize, end: usize) -> (stop: usize)
    requires
        start <= end <= text@.len(),
    ensures
        start <= stop <= end,
        code_of(text@.subrange(start as int, end as int)) == text@.subrange(
            start as int,
            stop as int,
        ),
{
    let mut stop: usize = start;
    while stop < end && text[stop] != ';'
        invariant
            start <= stop <= end <= text@.len(),
            code_of(text@.subrange(start as int, end as int)) == text@.subrange(
                start as int,
                stop as int,
            ) + code_of(text@.subrange(stop as int, end as int)),
        decreases end - stop,
    {
        proof {
            let rest = text@.subrange(stop as int, end as int);
            assert(rest.drop_first() =~= text@.subrange(stop + 1, end as int));
            assert(text@.subrange(start as int, stop as int) + (seq![rest[0]] + code_of(
                rest.drop_first(),
            )) =~= text@.subrange(start as int, stop + 1) + code_of(rest.drop_first()));
        }
        stop = stop + 1;
    }
    assert(code_of(text@.subrange(stop as int, end as int)) =~= Seq::<char>::empty());
    assert(text@.subrange(start as int, stop as int) + Seq::<char>::empty() =~= text@.subrange(
        start as int,
        stop as int,
    ));
    stop
}

/// Cut a stretch of text into words.
fn split_words(text: &Vec<char>, start: usize, end: usize) -> (words: Vec<Word>)
    requires
        start <= end <= text@.len(),
    ensures
        all_inside(words@, text@),
        texts(words@, text@) == words_of(text@.subrange(start as int, end as int)),
{
    let mut words: Vec<Word> = Vec::new();
    let mut inside = false;
    let mut index: usize = start;
    assert(texts(words@, text@) =~= words_of(text@.subrange(start as int, start as int)));
    while index < end
        invariant
            start <= index <= end <= text@.len(),
            all_inside(words@, text@),
            texts(words@, text@) == words_of(text@.subrange(start as int, index as int)),
            inside == (index > start && !is_space(text@[index - 1])),
            inside ==> words@.len() > 0 && words@.last().end == index,
        decreases end - index,
    {
        let ghost code = text@.subrange(start as int, index + 1);
        let ghost before = words@;
        proof {
            assert(code.drop_last() =~= text@.subrange(start as int, index as int));
            assert(code.last() == text@[index as int]);
            if index > start {
                assert(code[code.len() - 2] == text@[index - 1]);
            }
        }
        if space(text[index]) {
            inside = false;
        } else if inside {
            let last = words.len() - 1;
            let word = Word { start: words[last].start, end: index + 1 };
            words.set(last, word);
            proof {
                let shorter = before.last().of(text@);
                assert(texts(before, text@).last() == shorter);
                assert(word.of(text@) =~= shorter.push(text@[index as int]));
                assert(texts(words@, text@) =~= texts(before, text@).drop_last().push(
                    word.of(text@),
                ));
            }
        } else {
            let word = Word { start: index, end: index + 1 };
            words.push(word);
            proof {
                assert(word.of(text@) =~= seq![text@[index as int]]);
                assert(texts(words@, text@) =~= texts(before, text@).push(word.of(text@)));
            }
            inside = true;
        }
        index = index + 1;
    }
    words
}

/// Whether a word is the given name, letters of either case alike.
fn is_named(text: &Vec<char>, word: Word, name: &str) -> (r: bool)
    requires
        word.inside(text@),
    ensures
        r == (uppercase(word.of(text@)) == name@),
{
    let count = name.unicode_len();
    if word.end - word.start != count {
        return false;
    }
    let mut index: usize = 0;
    while index < count
        invariant
            index <= count,
            count == name@.len(),
            word.inside(text@),
            word.end - word.start == count,
            forall|k: int| 0 <= k < index ==> upper(#[trigger] word.of(text@)[k]) == name@[k],
        decreases count - index,
    {
        let c = text[word.start + index];
        let wanted = name.get_char(index) as u32;
        let code = if 'a' <= c && c <= 'z' {
            c as u32 - 32
        } else {
            c as u32
        };
        assert(word.of(text@)[index as int] == c);
        assert(code == upper(c) as u32);
        if code != wanted {
            assert(uppercase(word.of(text@))[index as int] != name@[index as int]);
            return false;
        }
        assert(upper(c) == name@[index as int]);
        index = index + 1;
    }
    assert(uppercase(word.of(text@)) =~= name@);
    true
}

/// Append the decimal digits of a number.
fn append_decimal(message: &mut String, value: u128)
    ensures
        final(message)@ == old(message)@ + decimal(value as nat),
    decreases value,
{
    if value >= 10 {
        append_decimal(message, value / 10);
    }
    let low = (value % 10) as usize;
    let digits = "0123456789";
    proof {
        reveal_strlit("0123456789");
        assert(digits@.subrange(low as int, low + 1) =~= seq![digit(low as nat)]);
    }
    message.append(digits.substring_char(low, low + 1));
    assert(message@ =~= old(message)@ + decimal(value as nat));
}

/// Append a word in upper case.
fn append_upper(message: &mut String, source: &str, text: &Vec<char>, word: Word)
    requires
        text@ == source@,
        word.inside(text@),
    ensures
        final(message)@ == old(message)@ + uppercase(word.of(text@)),
{
    let letters = "ABCDEFGHIJKLMNOPQRSTUVWXYZ";
    let mut index: usize = word.start;
    assert(message@ =~= old(message)@ + uppercase(text@.subrange(word.start as int, index as int)));
    while index < word.end
        invariant
            text@ == source@,
            word.inside(text@),
            word.start <= index <= word.end,
            letters@ == "ABCDEFGHIJKLMNOPQRSTUVWXYZ"@,
            message@ == old(message)@ + uppercase(
                text@.subrange(word.start as int, index as int),
            ),
        decreases word.end - index,
    {
        let c = text[index];
        let ghost before = message@;
        if 'a' <= c && c <= 'z' {
            let place = (c as u32 - 97) as usize;
            proof {
                reveal_strlit("ABCDEFGHIJKLMNOPQRSTUVWXYZ");
                lemma_letter(c);
                assert(letters@.subrange(place as int, place + 1) =~= seq![upper(c)]);
            }
            message.append(letters.substring_char(place, place + 1));
        } else {
            assert(source@.subrange(index as int, index + 1) =~= seq![c]);
            message.append(source.substring_char(index, index + 1));
        }
        assert(message@ == before + seq![upper(c)]);
        assert(uppercase(text@.subrange(word.start as int, index + 1)) =~= uppercase(
            text@.subrange(word.start as int, index as int),
        ) + seq![upper(c)]);
        assert(message@ =~= old(message)@ + uppercase(
            text@.subrange(word.start as int, index + 1),
        ));
        index = index + 1;
    }
}

/// The upper-case letters in order.
proof fn lemma_letter(c: char)
    requires
        'a' <= c <= 'z',
    ensures
        "ABCDEFGHIJKLMNOPQRSTUVWXYZ"@.len() == 26,
        "ABCDEFGHIJKLMNOPQRSTUVWXYZ"@[c as u32 - 97] == upper(c),
{
    reveal_strlit("ABCDEFGHIJKLMNOPQRSTUVWXYZ");
}

/// The start of an error message; `index` lines precede the bad one.
fn message_at(index: usize) -> (message: String)
    ensures
        message@ == at_line(index as nat + 1),
{
    let mut message = String::new();
    message.append("line ");
    append_decimal(&mut message, index as u128 + 1);
    message.append(": ");
    assert(message@ =~= at_line(index as nat + 1));
    message
}

/// The value of a digit, or 36 for any other character.
fn digit_number(c: char) -> (value: u32)
    ensures
        value <= 36,
        forall|radix: nat|
            radix <= 36 ==> #[trigger] digit_value(c, radix) == if value < radix {
                Some(value as nat)
            } else {
                None
            },
{
    let code = c as u32;
    if '0' <= c && c <= '9' {
        code - 48
    } else if 'a' <= c && c <= 'z' {
        code - 97 + 10
    } else if 'A' <= c && c <= 'Z' {
        code - 65 + 10
    } else {
        36
    }
}

/// Read a row of digits as a 16-bit number.
fn read_digits(text: &Vec<char>, start: usize, end: usize, radix: u32) -> (number: Option<u16>)
    requires
        start <= end <= text@.len(),
        radix == 10 || radix == 16,
    ensures
        number == fitting(
            digits_value(text@.subrange(start as int, end as int), radix as nat),
            (end - start) as nat,
        ),
{
    let ghost digits = text@.subrange(start as int, end as int);
    if start == end {
        return None;
    }
    let mut value: u32 = 0;
    let mut wide = false;
    let mut index: usize = start;
    assert(digits.take(0) =~= Seq::<char>::empty());
    while index < end
        invariant
            start <= index <= end <= text@.len(),
            digits == text@.subrange(start as int, end as int),
            radix == 10 || radix == 16,
            value <= 0xFFFF,
            digits_value(digits.take(index - start), radix as nat) is Some,
            wide ==> digits_value(digits.take(index - start), radix as nat)->0 > 0xFFFF,
            !wide ==> digits_value(digits.take(index - start), radix as nat)->0 == value,
        decreases end - index,
    {
        let d = digit_number(text[index]);
        let ghost seen = digits.take(index - start + 1);
        proof {
            assert(seen.drop_last() =~= digits.take(index - start));
            assert(seen.last() == text@[index as int]);
        }
        if d >= radix {
            proof {
                assert(digits_value(seen, radix as nat) is None);
                lemma_digits_stop(digits, index - start + 1, radix as nat);
            }
            return None;
        }
        proof {
            let high = digits_value(digits.take(index - start), radix as nat)->0;
            if wide {
                assert(high * radix > 0xFFFF) by (nonlinear_arith)
                    requires
                        high > 0xFFFF,
                        radix >= 10,
                ;
            }
        }
        assert(value * radix + d <= 0xF_FFFF) by (nonlinear_arith)
            requires
                value <= 0xFFFF,
                radix <= 16,
                d < radix,
        ;
        if !wide {
            let next = value * radix + d;
            if next > 0xFFFF {
                wide = true;
            } else {
                value = next;
            }
        }
        index = index + 1;
    }
    assert(digits.take(digits.len() as int) =~= digits);
    if wide {
        None
    } else {
        Some(value as u16)
    }
}

/// Read a word as a number.
fn parse_number(text: &Vec<char>, word: Word) -> (number: Option<u16>)
    requires
        word.inside(text@),
    ensures
        number == parsed_number(word.of(text@)),
{
    let hex = word.end - word.start >= 2 && text[word.start] == '0' && (text[word.start + 1] == 'x'
        || text[word.start + 1] == 'X');
    let mut start = if hex {
        word.start + 2
    } else {
        word.start
    };
    let ghost signed = text@.subrange(start as int, word.end as int);
    proof {
        let whole = word.of(text@);
        if hex {
            assert(whole.skip(2) =~= signed);
        }
        if signed.len() > 0 && signed[0] == '+' {
            assert(signed.skip(1) =~= text@.subrange(start + 1, word.end as int));
        }
    }
    if start < word.end && text[start] == '+' {
        start = start + 1;
    }
    let radix: u32 = if hex {
        16
    } else {
        10
    };
    read_digits(text, start, word.end, radix)
}

/// A character that is no digit spoils the whole row.
proof fn lemma_digits_stop(digits: Seq<char>, count: int, radix: nat)
    requires
        0 <= count <= digits.len(),
        digits_value(digits.take(count), radix) is None,
    ensures
        digits_value(digits, radix) is None,
    decreases digits.len() - count,
{
    if count == digits.len() {
        assert(digits.take(count) =~= digits);
    } else {
        assert(digits.take(count + 1).drop_last() =~= digits.take(count));
        lemma_digits_stop(digits, count + 1, radix);
    }
}

/// Read a word as a number, or report it.
fn number_operand(source: &str, text: &Vec<char>, word: Word, index: usize) -> (r: Result<
    u16,
    String,
>)
    requires
        text@ == source@,
        word.inside(text@),
    ensures
        match parsed_number(word.of(text@)) {
            Some(value) => r == Ok::<u16, String>(value),
            None => r is Err && r->Err_0@ == bad_number(index as nat + 1, word.of(text@)),
        },
{
    match parse_number(text, word) {
        Some(value) => Ok(value),
        None => {
            let mut message = message_at(index);
            message.append("bad number `");
            message.append(source.substring_char(word.start, word.end));
            message.append("`");
            Err(message)
        },
    }
}

/// Read a word as a byte, or report it.
fn read_byte(source: &str, text: &Vec<char>, word: Word, index: usize) -> (r: Result<u8, String>)
    requires
        text@ == source@,
        word.inside(text@),
    ensures
        match byte_operand(word.of(text@), index as nat + 1) {
            Ok(byte) => r == Ok::<u8, String>(byte),
            Err(message) => r is Err && r->Err_0@ == message,
        },
{
    match number_operand(source, text, word, index) {
        Ok(value) => if value > 0xFF {
            let mut message = message_at(index);
            message.append("byte out of range `");
            append_decimal(&mut message, value as u128);
            message.append("`");
            Err(message)
        } else {
            Ok(value as u8)
        },
        Err(message) => Err(message),
    }
}

/// Read the operands of `DB`: the words from the second on.
fn read_directive(source: &str, text: &Vec<char>, words: &Vec<Word>, index: usize) -> (r: Result<
    Vec<u8>,
    String,
>)
    requires
        text@ == source@,
        all_inside(words@, text@),
        words@.len() > 0,
    ensures
        outcome_is(r, directive(texts(words@, text@).skip(1), index as nat + 1)),
{
    let ghost operands = texts(words@, text@).skip(1);
    if words.len() == 1 {
        let mut message = message_at(index);
        message.append("DB needs at least one byte");
        return Err(message);
    }
    let mut bytes: Vec<u8> = Vec::new();
    let mut place: usize = 1;
    assert(operands.take(0) =~= Seq::<Seq<char>>::empty());
    while place < words.len()
        invariant
            text@ == source@,
            all_inside(words@, text@),
            1 <= place <= words@.len(),
            operands == texts(words@, text@).skip(1),
            operands.len() > 0,
            data_bytes(operands.take(place - 1), index as nat + 1) == Ok::<Seq<u8>, Seq<char>>(
                bytes@,
            ),
        decreases words@.len() - place,
    {
        let word = words[place];
        proof {
            assert(operands[place - 1] == word.of(text@));
            assert(operands.take(place as int).drop_last() =~= operands.take(place - 1));
            assert(operands.take(place as int).last() == word.of(text@));
        }
        match read_byte(source, text, word, index) {
            Ok(byte) => bytes.push(byte),
            Err(message) => {
                proof {
                    lemma_data_stop(operands, place as int, index as nat + 1);
                }
                return Err(message);
            },
        }
        place = place + 1;
    }
    assert(operands.take(operands.len() as int) =~= operands);
    Ok(bytes)
}

/// A word that is no byte is reported whatever follows it.
proof fn lemma_data_stop(words: Seq<Seq<char>>, count: int, number: nat)
    requires
        0 <= count <= words.len(),
        data_bytes(words.take(count), number) is Err,
    ensures
        data_bytes(words, number) == data_bytes(words.take(count), number),
    decreases words.len() - count,
{
    if count == words.len() {
        assert(words.take(count) =~= words);
    } else {
        assert(words.take(count + 1).drop_last() =~= words.take(count));
        lemma_data_stop(words, count + 1, number);
    }
}

/// The mnemonic of a SAP-1 instruction.
fn sap1_name(number: usize) -> (name: &'static str)
    ensures
        name@ == sap1_mnemonic(number as int),
{
    if number == 0 {
        "NOP"
    } else if number == 1 {
        "LDA"
    } else if number == 2 {
        "ADD"
    } else if number == 3 {
        "SUB"
    } else if number == 4 {
        "STA"
    } else if number == 5 {
        "LDI"
    } else if number == 6 {
        "JMP"
    } else if number == 7 {
        "JZ"
    } else if number == 8 {
        "JC"
    } else {
        "HLT"
    }
}

/// The mnemonic of a SAP-2 instruction.
fn sap2_name(instr: usize) -> (name: &'static str)
    ensures
        name@ == sap2_mnemonic(instr as int),
{
    if instr == control::IN_NOP {
        "NOP"
    } else if instr == control::IN_LDA {
        "LDA"
    } else if instr == control::IN_STA {
        "STA"
    } else if instr == control::IN_MVIA {
        "MVIA"
    } else if instr == control::IN_MVIB {
        "MVIB"
    } else if instr == control::IN_ADD {
        "ADD"
    } else if instr == control::IN_SUB {
        "SUB"
    } else if instr == control::IN_ANA {
        "ANA"
    } else if instr == control::IN_ORA {
        "ORA"
    } else if instr == control::IN_XRA {
        "XRA"
    } else if instr == control::IN_CMA {
        "CMA"
    } else if instr == control::IN_INRA {
        "INRA"
    } else if instr == control::IN_DCRA {
        "DCRA"
    } else if instr == control::IN_IN {
        "IN"
    } else if instr == control::IN_OUT {
        "OUT"
    } else if instr == control::IN_JMP {
        "JMP"
    } else if instr == control::IN_JZ {
        "JZ"
    } else if instr == control::IN_JNZ {
        "JNZ"
    } else if instr == control::IN_JM {
        "JM"
    } else if instr == control::IN_CALL {
        "CALL"
    } else if instr == control::IN_RET {
        "RET"
    } else if instr == control::IN_PSHA {
        "PSHA"
    } else if instr == control::IN_POPA {
        "POPA"
    } else {
        "HLT"
    }
}

/// Find the SAP-1 instruction that a word names.
fn sap1_find(text: &Vec<char>, word: Word) -> (found: Option<usize>)
    requires
        word.inside(text@),
    ensures
        match found {
            Some(number) => sap1_named(uppercase(word.of(text@)), 0) == Some(number as int),
            None => sap1_named(uppercase(word.of(text@)), 0) is None,
        },
{
    let mut number: usize = 0;
    while number < 10
        invariant
            number <= 10,
            word.inside(text@),
            sap1_named(uppercase(word.of(text@)), 0) == sap1_named(
                uppercase(word.of(text@)),
                number as int,
            ),
        decreases 10 - number,
    {
        if is_named(text, word, sap1_name(number)) {
            return Some(number);
        }
        number = number + 1;
    }
    None
}

/// Find the SAP-2 instruction that a word names.
fn sap2_find(text: &Vec<char>, word: Word) -> (found: Option<usize>)
    requires
        word.inside(text@),
    ensures
        match found {
            Some(instr) => instr < 24 && sap2_named(uppercase(word.of(text@)), 0) == Some(
                instr as int,
            ),
            None => sap2_named(uppercase(word.of(text@)), 0) is None,
        },
{
    let mut instr: usize = 0;
    while instr < 24
        invariant
            instr <= 24,
            word.inside(text@),
            sap2_named(uppercase(word.of(text@)), 0) == sap2_named(
                uppercase(word.of(text@)),
                instr as int,
            ),
        decreases 24 - instr,
    {
        if is_named(text, word, sap2_name(instr)) {
            return Some(instr);
        }
        instr = instr + 1;
    }
    None
}

/// Encode a SAP-1 instruction.
fn encode_sap1(
    source: &str,
    text: &Vec<char>,
    words: &Vec<Word>,
    index: usize,
    number: usize,
) -> (r: Result<Vec<u8>, String>)
    requires
        text@ == source@,
        all_inside(words@, text@),
        words@.len() > 0,
        number < 10,
    ensures
        outcome_is(
            r,
            sap1_encoded(number as int, texts(words@, text@).skip(1), index as nat + 1),
        ),
{
    let mut bytes: Vec<u8> = Vec::new();
    if number == 0 {
        bytes.push(0x00);
        return Ok(bytes);
    }
    if number == 9 {
        bytes.push(0xF0);
        return Ok(bytes);
    }
    if words.len() != 2 {
        let mut message = message_at(index);
        message.append("one address expected");
        return Err(message);
    }
    assert(texts(words@, text@).skip(1)[0] == words@[1].of(text@));
    match number_operand(source, text, words[1], index) {
        Ok(value) => if value > 0xF {
            let mut message = message_at(index);
            message.append("address out of range `");
            append_decimal(&mut message, value as u128);
            message.append("`");
            Err(message)
        } else {
            bytes.push(16 * (number as u8) + value as u8);
            Ok(bytes)
        },
        Err(message) => Err(message),
    }
}

/// The start of an error message that names a SAP-2 instruction.
fn quote_sap2(index: usize, instr: usize, rest: &str) -> (message: String)
    ensures
        message@ == at_line(index as nat + 1) + "`"@ + sap2_mnemonic(instr as int) + rest@,
{
    let mut message = message_at(index);
    message.append("`");
    message.append(sap2_name(instr));
    message.append(rest);
    message
}

/// Encode a SAP-2 instruction.
fn encode_sap2(
    source: &str,
    text: &Vec<char>,
    words: &Vec<Word>,
    index: usize,
    instr: usize,
) -> (r: Result<Vec<u8>, String>)
    requires
        text@ == source@,
        all_inside(words@, text@),
        words@.len() > 0,
        instr < 24,
    ensures
        outcome_is(
            r,
            sap2_encoded(instr as int, texts(words@, text@).skip(1), index as nat + 1),
        ),
{
    let mut bytes: Vec<u8> = Vec::new();
    bytes.push(control::opcode(instr));
    if words.len() == 2 {
        assert(texts(words@, text@).skip(1)[0] == words@[1].of(text@));
    }
    if instr == control::IN_NOP || instr == control::IN_HLT {
        Ok(bytes)
    } else if control::takes_address(instr) {
        if words.len() != 2 {
            return Err(quote_sap2(index, instr, "` takes one address"));
        }
        match number_operand(source, text, words[1], index) {
            Ok(value) => {
                bytes.push((value % 256) as u8);
                bytes.push((value / 256) as u8);
                assert(bytes@ =~= seq![
                    control::opcode_of(instr as int),
                    utils::low_byte(value),
                    utils::high_byte(value),
                ]);
                Ok(bytes)
            },
            Err(message) => Err(message),
        }
    } else if control::takes_operand(instr) {
        if words.len() != 2 {
            return Err(quote_sap2(index, instr, "` takes one byte"));
        }
        match read_byte(source, text, words[1], index) {
            Ok(byte) => {
                bytes.push(byte);
                assert(bytes@ =~= seq![control::opcode_of(instr as int), byte]);
                Ok(bytes)
            },
            Err(message) => Err(message),
        }
    } else if words.len() == 1 || (words.len() == 2 && is_named(text, words[1], "B")) {
        Ok(bytes)
    } else {
        Err(quote_sap2(index, instr, "` takes `B` or nothing"))
    }
}

/// Assemble one line of a text.
fn assemble_line(
    source: &str,
    text: &Vec<char>,
    start: usize,
    end: usize,
    index: usize,
    sap2: bool,
) -> (r: Result<Vec<u8>, String>)
    requires
        text@ == source@,
        start <= end <= text@.len(),
    ensures
        outcome_is(
            r,
            assembled_line(text@.subrange(start as int, end as int), index as nat + 1, sap2),
        ),
{
    let stop = code_end(text, start, end);
    let words = split_words(text, start, stop);
    if words.len() == 0 {
        return Ok(Vec::new());
    }
    assert(texts(words@, text@)[0] == words@[0].of(text@));
    let mnemonic = words[0];
    if sap2 {
        if let Some(instr) = sap2_find(text, mnemonic) {
            return encode_sap2(source, text, &words, index, instr);
        }
    } else {
        if let Some(number) = sap1_find(text, mnemonic) {
            proof {
                lemma_sap1_range(uppercase(mnemonic.of(text@)), 0);
            }
            return encode_sap1(source, text, &words, index, number);
        }
    }
    if is_named(text, mnemonic, "DB") {
        return read_directive(source, text, &words, index);
    }
    let mut message = message_at(index);
    message.append("unknown instruction `");
    append_upper(&mut message, source, text, mnemonic);
    message.append("`");
    Err(message)
}

/// A SAP-1 instruction that has a name has a number below ten.
proof fn lemma_sap1_range(mnemonic: Seq<char>, number: int)
    ensures
        sap1_named(mnemonic, number) is Some ==> number <= sap1_named(mnemonic, number)->0 < 10,
    decreases 10 - number,
{
    if number < 10 && sap1_mnemonic(number) != mnemonic {
        lemma_sap1_range(mnemonic, number + 1);
    }
}

/// Assemble a whole text, line by line.
fn assemble(source: &str, sap2: bool) -> (r: Result<Vec<u8>, String>)
    ensures
        outcome_is(r, assembled(lines_of(source@), sap2)),
{
    let text = characters(source);
    let count = text.len();
    let mut bytes: Vec<u8> = Vec::new();
    let mut start: usize = 0;
    let mut line: usize = 0;
    let mut index: usize = 0;
    let ghost mut done: Seq<Seq<char>> = Seq::empty();
    proof {
        assert(text@.take(0) =~= Seq::<char>::empty());
        assert(lines_of(text@.take(0)) =~= done.push(text@.subrange(0, 0)));
    }
    while index < count
        invariant
            text@ == source@,
            count == text@.len(),
            start <= index <= count,
            line <= index,
            line == done.len(),
            lines_of(text@.take(index as int)) == done.push(
                text@.subrange(start as int, index as int),
            ),
            assembled(done, sap2) == Ok::<Seq<u8>, Seq<char>>(bytes@),
        decreases count - index,
    {
        let ghost current = text@.subrange(start as int, index as int);
        let ghost seen = text@.take(index as int + 1);
        proof {
            assert(seen.drop_last() =~= text@.take(index as int));
            assert(seen.last() == text@[index as int]);
            assert(done.push(current).drop_last() =~= done);
        }
        if text[index] == '\n' {
            proof {
                assert(text@.subrange(index + 1, index + 1) =~= Seq::<char>::empty());
                assert(done.push(current).push(Seq::empty()).take(done.len() as int + 1)
                    =~= done.push(current));
                lemma_lines_grow(text@, index as int + 1, done.push(current));
            }
            match assemble_line(source, &text, start, index, line, sap2) {
                Ok(more) => {
                    append_bytes(&mut bytes, &more);
                },
                Err(message) => {
                    proof {
                        let lines = lines_of(text@);
                        assert(lines.take(done.len() as int + 1) =~= done.push(current));
                        law_first_error(lines, done.len() as int + 1, sap2);
                    }
                    return Err(message);
                },
            }
            proof {
                done = done.push(current);
            }
            start = index + 1;
            line = line + 1;
        } else {
            assert(current.push(text@[index as int]) =~= text@.subrange(
                start as int,
                index + 1,
            ));
        }
        index = index + 1;
    }
    let ghost last = text@.subrange(start as int, count as int);
    proof {
        assert(text@.take(count as int) =~= text@);
        assert(done.push(last).drop_last() =~= done);
    }
    match assemble_line(source, &text, start, count, line, sap2) {
        Ok(more) => {
            append_bytes(&mut bytes, &more);
            Ok(bytes)
        },
        Err(message) => Err(message),
    }
}

/// Lines that are complete stay as they are when the text goes on.
proof fn lemma_lines_grow(text: Seq<char>, count: int, complete: Seq<Seq<char>>)
    requires
        0 <= count <= text.len(),
        lines_of(text.take(count)).len() > complete.len(),
        lines_of(text.take(count)).take(complete.len() as int) == complete,
    ensures
        lines_of(text).len() > complete.len(),
        lines_of(text).take(complete.len() as int) == complete,
    decreases text.len() - count,
{
    if count == text.len() {
        assert(text.take(count) =~= text);
    } else {
        let lines = lines_of(text.take(count));
        let more = lines_of(text.take(count + 1));
        assert(text.take(count + 1).drop_last() =~= text.take(count));
        assert(more.take(complete.len() as int) =~= lines.take(complete.len() as int));
        lemma_lines_grow(text, count + 1, complete);
    }
}

/// Append bytes to a program.
fn append_bytes(bytes: &mut Vec<u8>, more: &Vec<u8>)
    ensures
        final(bytes)@ == old(bytes)@ + more@,
{
    for index in 0..more.len()
        invariant
            bytes@ == old(bytes)@ + more@.take(index as int),
    {
        bytes.push(more[index]);
        assert(more@.take(index as int + 1) =~= more@.take(index as int).push(more@[index as int]));
    }
    assert(more@.take(more@.len() as int) =~= more@);
}

/// Assemble a SAP-1 program: `LDA 0xE`, `LDI 5`, `JZ 0`, `NOP`, `HLT`,
/// `DB 0x01` (raw bytes for data).
pub fn assemble_sap1(source: &str) -> (r: Result<Vec<u8>, String>)
    ensures
        outcome_is(r, assembled(lines_of(source@), false)),
{
    assemble(source, false)
}

/// Assemble a SAP-2 program: `MVIA 10`, `ADD B`, `LDA 0x0010`, `JMP 6`,
/// `IN`, `OUT`, `RET`, `HLT`, `DB 0x01` (raw data bytes).
pub fn assemble_sap2(source: &str) -> (r: Result<Vec<u8>, String>)
    ensures
        outcome_is(r, assembled(lines_of(source@), true)),
{
    assemble(source, true)
}

/// A text of two parts with a line feed between them has the lines of both,
/// and a text without a line feed is one line.
pub proof fn law_lines(first: Seq<char>, second: Seq<char>)
    ensures
        lines_of(first + seq!['\n'] + second) == lines_of(first) + lines_of(second),
        !first.contains('\n') ==> lines_of(first) == seq![first],
{
    lemma_lines_split(first, second);
    if !first.contains('\n') {
        lemma_single_line(first);
    }
}

/// The lines behind a line feed are those of the rest.
proof fn lemma_lines_split(first: Seq<char>, second: Seq<char>)
    ensures
        lines_of(first + seq!['\n'] + second) == lines_of(first) + lines_of(second),
        lines_of(second).len() > 0,
    decreases second.len(),
{
    let text = first + seq!['\n'] + second;
    if second.len() == 0 {
        assert(text.drop_last() =~= first);
        assert(text.last() == '\n');
        assert(lines_of(text) =~= lines_of(first) + lines_of(second));
    } else {
        let rest = second.drop_last();
        lemma_lines_split(first, rest);
        assert(text.drop_last() =~= first + seq!['\n'] + rest);
        assert(text.last() == second.last());
        let before = lines_of(first) + lines_of(rest);
        assert(before.last() == lines_of(rest).last());
        assert(before.drop_last() =~= lines_of(first) + lines_of(rest).drop_last());
        assert(lines_of(text) =~= lines_of(first) + lines_of(second));
    }
}

/// A text without a line feed is one line.
proof fn lemma_single_line(text: Seq<char>)
    requires
        !text.contains('\n'),
    ensures
        lines_of(text) == seq![text],
    decreases text.len(),
{
    if text.len() == 0 {
        assert(text =~= Seq::empty());
    } else {
        let rest = text.drop_last();
        assert forall|i: int| 0 <= i < rest.len() implies rest[i] != '\n' by {
            assert(text.contains(text[i]));
        }
        lemma_single_line(rest);
        assert(text.contains(text[text.len() - 1]));
        assert(rest.push(text.last()) =~= text);
        assert(seq![rest].drop_last() =~= Seq::empty());
        assert(lines_of(text) =~= seq![text]);
    }
}

/// The code of a line is all of it when there is no semicolon, and what
/// stands before the first one otherwise.
pub proof fn law_code(code: Seq<char>, comment: Seq<char>)
    requires
        !code.contains(';'),
    ensures
        code_of(code) == code,
        code_of(code + seq![';'] + comment) == code,
{
    lemma_code_before_comment(code, comment);
    lemma_plain_code(code);
}

/// A line without a semicolon is all code.
proof fn lemma_plain_code(code: Seq<char>)
    requires
        !code.contains(';'),
    ensures
        code_of(code) == code,
    decreases code.len(),
{
    if code.len() > 0 {
        let rest = code.drop_first();
        assert(code.contains(code[0]));
        assert forall|i: int| 0 <= i < rest.len() implies rest[i] != ';' by {
            assert(code.contains(code[i + 1]));
        }
        lemma_plain_code(rest);
        assert(seq![code[0]] + rest =~= code);
    } else {
        assert(code =~= Seq::empty());
    }
}

/// The characters that separate words.
pub proof fn law_white_space(c: char)
    ensures
        is_space(c) <==> {
            ||| c == ' ' || c == '\t' || c == '\n' || c == '\r'
            ||| c == '\u{B}' || c == '\u{C}'
            ||| c == '\u{85}' || c == '\u{A0}' || c == '\u{1680}'
            ||| '\u{2000}' <= c <= '\u{200A}'
            ||| c == '\u{2028}' || c == '\u{2029}' || c == '\u{202F}' || c == '\u{205F}'
            ||| c == '\u{3000}'
        },
{
}

/// White space separates words and counts for nothing else: a line of two
/// parts with white space between them has the words of both, a stretch
/// without white space is one word, and nothing has no words.
pub proof fn law_words(first: Seq<char>, space: char, second: Seq<char>)
    requires
        is_space(space),
    ensures
        words_of(first + seq![space] + second) == words_of(first) + words_of(second),
        first.len() > 0 && (forall|i: int| 0 <= i < first.len() ==> !is_space(#[trigger] first[i]))
            ==> words_of(first) == seq![first],
        words_of(Seq::empty()) == Seq::<Seq<char>>::empty(),
{
    lemma_words_split(first, space, second);
    if first.len() > 0 && (forall|i: int|
        0 <= i < first.len() ==> !is_space(#[trigger] first[i])) {
        lemma_single_word(first);
    }
}

/// The words behind white space are those of the rest.
proof fn lemma_words_split(first: Seq<char>, space: char, second: Seq<char>)
    requires
        is_space(space),
    ensures
        words_of(first + seq![space] + second) == words_of(first) + words_of(second),
        second.len() > 0 && !is_space(second.last()) ==> words_of(second).len() > 0,
    decreases second.len(),
{
    let code = first + seq![space] + second;
    if second.len() == 0 {
        assert(code.drop_last() =~= first);
        assert(code.last() == space);
        assert(words_of(code) =~= words_of(first) + words_of(second));
    } else {
        let rest = second.drop_last();
        lemma_words_split(first, space, rest);
        assert(code.drop_last() =~= first + seq![space] + rest);
        assert(code.last() == second.last());
        let before = words_of(first) + words_of(rest);
        if !is_space(second.last()) {
            if second.len() == 1 {
                assert(code[code.len() - 2] == space);
                assert(words_of(code) =~= words_of(first) + words_of(second));
            } else {
                assert(code[code.len() - 2] == second[second.len() - 2]);
                assert(rest.last() == second[second.len() - 2]);
                if !is_space(rest.last()) {
                    assert(before.last() == words_of(rest).last());
                    assert(before.drop_last() =~= words_of(first) + words_of(rest).drop_last());
                }
                assert(words_of(code) =~= words_of(first) + words_of(second));
            }
        }
    }
}

/// A stretch without white space is one word.
proof fn lemma_single_word(word: Seq<char>)
    requires
        word.len() > 0,
        forall|i: int| 0 <= i < word.len() ==> !is_space(#[trigger] word[i]),
    ensures
        words_of(word) == seq![word],
    decreases word.len(),
{
    let rest = word.drop_last();
    assert(!is_space(word[word.len() - 1]));
    if word.len() == 1 {
        assert(words_of(rest) =~= Seq::empty());
        assert(words_of(word) =~= seq![word]) by {
            assert(seq![word.last()] =~= word);
        }
    } else {
        assert forall|i: int| 0 <= i < rest.len() implies !is_space(#[trigger] rest[i]) by {
            assert(rest[i] == word[i]);
        }
        lemma_single_word(rest);
        assert(!is_space(word[word.len() - 2]));
        assert(rest.push(word.last()) =~= word);
        assert(seq![rest].drop_last() =~= Seq::empty());
        assert(words_of(word) =~= seq![word]);
    }
}

/// Upper case moves the 26 letters from `a` to `z` to those from `A` to `Z`
/// and touches nothing else, character by character.
pub proof fn law_upper_case(word: Seq<char>, index: int)
    requires
        0 <= index < word.len(),
    ensures
        uppercase(word).len() == word.len(),
        ({
            let before = word[index] as u32;
            let after = uppercase(word)[index] as u32;
            after == if 97 <= before <= 122 {
                (before - 32) as u32
            } else {
                before
            }
        }),
{
}

/// The case of a mnemonic does not matter: two lines whose first words
/// differ in case only, and whose other words are the same, assemble to the
/// same.
pub proof fn law_case_ignored(line: Seq<char>, other: Seq<char>, number: nat, sap2: bool)
    requires
        words_of(code_of(line)).len() > 0,
        words_of(code_of(other)).len() > 0,
        uppercase(words_of(code_of(line))[0]) == uppercase(words_of(code_of(other))[0]),
        words_of(code_of(line)).skip(1) == words_of(code_of(other)).skip(1),
    ensures
        assembled_line(line, number, sap2) == assembled_line(other, number, sap2),
{
}

/// The decimal digits of a number, from the last one on: a number below ten
/// is one digit, and ten times a number plus a digit is the number with the
/// digit behind it.
pub proof fn law_decimal_digits(value: nat, last: nat)
    requires
        last < 10,
    ensures
        decimal(last).len() == 1,
        decimal(last)[0] as u32 == 48 + last,
        value > 0 ==> decimal(10 * value + last) == decimal(value) + decimal(last),
{
    if value > 0 {
        let whole = 10 * value + last;
        assert(whole / 10 == value && whole % 10 == last);
        assert(decimal(whole) =~= decimal(value) + decimal(last));
    }
}

/// Numbers with one digit or none: a digit is its value, in decimal behind
/// nothing or a plus sign, in hexadecimal behind `0x`, `0X` and a plus sign
/// behind those. Without a digit there is no number.
pub proof fn law_short_numbers(c: char, x: char)
    requires
        x == 'x' || x == 'X',
    ensures
        ({
            let decimal_digit = if '0' <= c <= '9' {
                Some((c as u32 - 48) as u16)
            } else {
                None
            };
            let hex_digit = if '0' <= c <= '9' {
                Some((c as u32 - 48) as u16)
            } else if 'a' <= c <= 'f' {
                Some((c as u32 - 87) as u16)
            } else if 'A' <= c <= 'F' {
                Some((c as u32 - 55) as u16)
            } else {
                None
            };
            &&& parsed_number(Seq::empty()) is None
            &&& parsed_number(seq![c]) == decimal_digit
            &&& parsed_number(seq!['+']) is None
            &&& parsed_number(seq!['+', c]) == decimal_digit
            &&& parsed_number(seq!['0', x]) is None
            &&& parsed_number(seq!['0', x, c]) == hex_digit
            &&& parsed_number(seq!['0', x, '+']) is None
            &&& parsed_number(seq!['0', x, '+', c]) == hex_digit
        }),
{
    lemma_one_digit(c, 10);
    lemma_one_digit(c, 16);
    assert(seq![c].skip(1) =~= Seq::empty());
    assert(seq!['+'].skip(1) =~= Seq::empty());
    assert(seq!['+', c].skip(1) =~= seq![c]);
    assert(seq!['0', x].skip(2) =~= Seq::empty());
    assert(seq!['0', x, c].skip(2) =~= seq![c]);
    assert(seq!['0', x, '+'].skip(2) =~= seq!['+']);
    assert(seq!['0', x, '+', c].skip(2) =~= seq!['+', c]);
}

/// The value of a single digit.
proof fn lemma_one_digit(c: char, radix: nat)
    ensures
        digits_value(seq![c], radix) == digit_value(c, radix),
        digits_value(Seq::empty(), radix) == Some(0nat),
{
    reveal_with_fuel(digits_value, 2);
    assert(seq![c].drop_last() =~= Seq::empty());
    assert(0 * radix == 0) by (nonlinear_arith);
}

/// Decimal numbers, digit by digit: a word that spells a number goes on to
/// spell ten times the number plus the next digit, as long as that fits in
/// 16 bits. Any other character, a number that does not fit, and a word
/// that was no number already, give no number.
pub proof fn law_decimal_numbers(word: Seq<char>, c: char)
    requires
        word.len() > 0,
        word != seq!['+'],
        !(word.len() >= 2 && word[0] == '0' && (word[1] == 'x' || word[1] == 'X')),
        !(word == seq!['0'] && (c == 'x' || c == 'X')),
    ensures
        parsed_number(word.push(c)) == match parsed_number(word) {
            Some(value) => if '0' <= c <= '9' && 10 * value + (c as u32 - 48) <= 65535 {
                Some((10 * value + (c as u32 - 48)) as u16)
            } else {
                None
            },
            None => None,
        },
{
    let longer = word.push(c);
    let digits = if word[0] == '+' {
        word.skip(1)
    } else {
        word
    };
    let more = if longer[0] == '+' {
        longer.skip(1)
    } else {
        longer
    };
    if word.len() == 1 {
        assert(word =~= seq![word[0]]);
    }
    assert(more =~= digits.push(c));
    assert(more.drop_last() =~= digits);
}

/// Hexadecimal numbers, digit by digit, as the decimal ones: the digits are
/// `0` to `9` and the letters from `a` to `f` in either case.
pub proof fn law_hex_numbers(word: Seq<char>, c: char)
    requires
        word.len() >= 3,
        word[0] == '0',
        word[1] == 'x' || word[1] == 'X',
        !(word.len() == 3 && word[2] == '+'),
    ensures
        ({
            let digit = if '0' <= c <= '9' {
                c as u32 - 48
            } else if 'a' <= c <= 'f' {
                c as u32 - 87
            } else if 'A' <= c <= 'F' {
                c as u32 - 55
            } else {
                16
            };
            parsed_number(word.push(c)) == match parsed_number(word) {
                Some(value) => if digit < 16 && 16 * value + digit <= 65535 {
                    Some((16 * value + digit) as u16)
                } else {
                    None
                },
                None => None,
            }
        }),
{
    let longer = word.push(c);
    let behind = word.skip(2);
    let digits = if behind[0] == '+' {
        behind.skip(1)
    } else {
        behind
    };
    let more = if longer.skip(2)[0] == '+' {
        longer.skip(2).skip(1)
    } else {
        longer.skip(2)
    };
    assert(longer.skip(2) =~= behind.push(c));
    assert(more =~= digits.push(c));
    assert(more.drop_last() =~= digits);
}

/// The mnemonics of the SAP-1 instructions all differ.
proof fn lemma_sap1_mnemonics_differ(number: int, other: int)
    requires
        0 <= number < other < 10,
    ensures
        sap1_mnemonic(number) != sap1_mnemonic(other),
{
    reveal_strlit("NOP");
    reveal_strlit("LDA");
    reveal_strlit("ADD");
    reveal_strlit("SUB");
    reveal_strlit("STA");
    reveal_strlit("LDI");
    reveal_strlit("JMP");
    reveal_strlit("JZ");
    reveal_strlit("JC");
    reveal_strlit("HLT");
    assert(fingerprint(sap1_mnemonic(number)) != fingerprint(sap1_mnemonic(other)));
}

/// A search that starts at or before a SAP-1 instruction finds it.
proof fn lemma_sap1_found(number: int, start: int)
    requires
        0 <= start <= number < 10,
    ensures
        sap1_named(sap1_mnemonic(number), start) == Some(number),
    decreases number - start,
{
    if start < number {
        lemma_sap1_mnemonics_differ(start, number);
        lemma_sap1_found(number, start + 1);
    }
}

/// A search for a word that is no mnemonic finds nothing.
proof fn lemma_not_named(word: Seq<char>, start: int)
    requires
        0 <= start,
    ensures
        (forall|number: int| start <= number < 10 ==> #[trigger] sap1_mnemonic(number) != word)
            ==> sap1_named(word, start) is None,
        (forall|instr: int| start <= instr < 24 ==> #[trigger] sap2_mnemonic(instr) != word)
            ==> sap2_named(word, start) is None,
    decreases 24 - start,
{
    if start < 24 {
        lemma_not_named(word, start + 1);
    }
}

/// The SAP-1 instructions with an address: one byte, whose high nibble is
/// the number of the mnemonic and whose low nibble is the address. So every
/// address from 0 to 15 has a byte of its own. Everything else is refused
/// with a message that says why.
pub proof fn law_sap1_addresses(line: Seq<char>, number: nat, mnemonic: Seq<char>, high: u8)
    requires
        words_of(code_of(line)).len() > 0,
        uppercase(words_of(code_of(line))[0]) == mnemonic,
        ({
            ||| mnemonic == "LDA"@ && high == 1
            ||| mnemonic == "ADD"@ && high == 2
            ||| mnemonic == "SUB"@ && high == 3
            ||| mnemonic == "STA"@ && high == 4
            ||| mnemonic == "LDI"@ && high == 5
            ||| mnemonic == "JMP"@ && high == 6
            ||| mnemonic == "JZ"@ && high == 7
            ||| mnemonic == "JC"@ && high == 8
        }),
    ensures
        ({
            let words = words_of(code_of(line));
            let outcome = assembled_line(line, number, false);
            let place = "line "@ + decimal(number) + ": "@;
            if words.len() != 2 {
                outcome == Err::<Seq<u8>, Seq<char>>(place + "one address expected"@)
            } else {
                match parsed_number(words[1]) {
                    Some(address) => if address <= 15 {
                        &&& outcome is Ok
                        &&& outcome->Ok_0.len() == 1
                        &&& outcome->Ok_0[0] % 16 == address
                        &&& outcome->Ok_0[0] / 16 == high
                    } else {
                        outcome == Err::<Seq<u8>, Seq<char>>(
                            place + "address out of range `"@ + decimal(address as nat) + "`"@,
                        )
                    },
                    None => outcome == Err::<Seq<u8>, Seq<char>>(
                        place + "bad number `"@ + words[1] + "`"@,
                    ),
                }
            }
        }),
{
    assert(sap1_mnemonic(high as int) == mnemonic);
    lemma_sap1_found(high as int, 0);
}

/// The SAP-1 instructions without an address: NOP is the byte 0 and HLT is
/// the byte F0, whatever follows them in the line.
pub proof fn law_sap1_plain(line: Seq<char>, number: nat)
    requires
        words_of(code_of(line)).len() > 0,
    ensures
        ({
            let mnemonic = uppercase(words_of(code_of(line))[0]);
            let outcome = assembled_line(line, number, false);
            &&& mnemonic == "NOP"@ ==> outcome == Ok::<Seq<u8>, Seq<char>>(seq![0u8])
            &&& mnemonic == "HLT"@ ==> outcome == Ok::<Seq<u8>, Seq<char>>(seq![0xF0u8])
        }),
{
    lemma_sap1_found(0, 0);
    lemma_sap1_found(9, 0);
}

/// The SAP-2 instructions with an address: the opcode, and then two bytes
/// that spell the address, low byte first. Every address of 16 bits is
/// accepted; everything else is refused with a message that says why.
pub proof fn law_sap2_addresses(line: Seq<char>, number: nat, mnemonic: Seq<char>, opcode: u8)
    requires
        words_of(code_of(line)).len() > 0,
        uppercase(words_of(code_of(line))[0]) == mnemonic,
        ({
            ||| mnemonic == "LDA"@ && opcode == 0x10
            ||| mnemonic == "STA"@ && opcode == 0x20
            ||| mnemonic == "JMP"@ && opcode == 0x70
            ||| mnemonic == "JZ"@ && opcode == 0x80
            ||| mnemonic == "JNZ"@ && opcode == 0x90
            ||| mnemonic == "JM"@ && opcode == 0xA0
            ||| mnemonic == "CALL"@ && opcode == 0xB0
        }),
    ensures
        ({
            let words = words_of(code_of(line));
            let outcome = assembled_line(line, number, true);
            let place = "line "@ + decimal(number) + ": "@;
            if words.len() != 2 {
                outcome == Err::<Seq<u8>, Seq<char>>(
                    place + "`"@ + mnemonic + "` takes one address"@,
                )
            } else {
                match parsed_number(words[1]) {
                    Some(address) => {
                        &&& outcome is Ok
                        &&& outcome->Ok_0.len() == 3
                        &&& outcome->Ok_0[0] == opcode
                        &&& outcome->Ok_0[1] + 256 * outcome->Ok_0[2] == address
                    },
                    None => outcome == Err::<Seq<u8>, Seq<char>>(
                        place + "bad number `"@ + words[1] + "`"@,
                    ),
                }
            }
        }),
{
    let instr: int = if opcode == 0x10 {
        control::IN_LDA as int
    } else if opcode == 0x20 {
        control::IN_STA as int
    } else {
        control::IN_JMP + (opcode - 0x70) / 16
    };
    assert(sap2_mnemonic(instr) == mnemonic);
    lemma_mnemonic_found(instr, 0);
}

/// The SAP-2 instructions with an immediate byte: the opcode, and then the
/// byte. Every number up to 255 is accepted and comes out as it is;
/// everything else is refused with a message that says why.
pub proof fn law_sap2_immediates(line: Seq<char>, number: nat, mnemonic: Seq<char>, opcode: u8)
    requires
        words_of(code_of(line)).len() > 0,
        uppercase(words_of(code_of(line))[0]) == mnemonic,
        ({
            ||| mnemonic == "MVIA"@ && opcode == 0x30
            ||| mnemonic == "MVIB"@ && opcode == 0x40
        }),
    ensures
        ({
            let words = words_of(code_of(line));
            let outcome = assembled_line(line, number, true);
            let place = "line "@ + decimal(number) + ": "@;
            if words.len() != 2 {
                outcome == Err::<Seq<u8>, Seq<char>>(
                    place + "`"@ + mnemonic + "` takes one byte"@,
                )
            } else {
                match parsed_number(words[1]) {
                    Some(value) => if value <= 255 {
                        &&& outcome is Ok
                        &&& outcome->Ok_0.len() == 2
                        &&& outcome->Ok_0[0] == opcode
                        &&& outcome->Ok_0[1] == value
                    } else {
                        outcome == Err::<Seq<u8>, Seq<char>>(
                            place + "byte out of range `"@ + decimal(value as nat) + "`"@,
                        )
                    },
                    None => outcome == Err::<Seq<u8>, Seq<char>>(
                        place + "bad number `"@ + words[1] + "`"@,
                    ),
                }
            }
        }),
{
    let instr: int = if opcode == 0x30 {
        control::IN_MVIA as int
    } else {
        control::IN_MVIB as int
    };
    assert(sap2_mnemonic(instr) == mnemonic);
    lemma_mnemonic_found(instr, 0);
}

/// The SAP-2 instructions without an operand: the opcode alone, where
/// nothing or the word `B` follows the mnemonic. Anything else is refused.
pub proof fn law_sap2_plain(line: Seq<char>, number: nat, mnemonic: Seq<char>, opcode: u8)
    requires
        words_of(code_of(line)).len() > 0,
        uppercase(words_of(code_of(line))[0]) == mnemonic,
        ({
            ||| mnemonic == "ADD"@ && opcode == 0x50
            ||| mnemonic == "SUB"@ && opcode == 0x51
            ||| mnemonic == "ANA"@ && opcode == 0x52
            ||| mnemonic == "ORA"@ && opcode == 0x53
            ||| mnemonic == "XRA"@ && opcode == 0x54
            ||| mnemonic == "CMA"@ && opcode == 0x55
            ||| mnemonic == "INRA"@ && opcode == 0x56
            ||| mnemonic == "DCRA"@ && opcode == 0x57
            ||| mnemonic == "IN"@ && opcode == 0x60
            ||| mnemonic == "OUT"@ && opcode == 0x61
            ||| mnemonic == "RET"@ && opcode == 0xC0
            ||| mnemonic == "PSHA"@ && opcode == 0xC1
            ||| mnemonic == "POPA"@ && opcode == 0xC2
        }),
    ensures
        ({
            let words = words_of(code_of(line));
            let outcome = assembled_line(line, number, true);
            let place = "line "@ + decimal(number) + ": "@;
            if words.len() == 1 || (words.len() == 2 && (words[1] == "B"@ || words[1] == "b"@)) {
                outcome == Ok::<Seq<u8>, Seq<char>>(seq![opcode])
            } else {
                outcome == Err::<Seq<u8>, Seq<char>>(
                    place + "`"@ + mnemonic + "` takes `B` or nothing"@,
                )
            }
        }),
{
    let instr: int = if opcode < 0x60 {
        control::IN_ADD + (opcode - 0x50)
    } else if opcode < 0x70 {
        control::IN_IN + (opcode - 0x60)
    } else {
        control::IN_RET + (opcode - 0xC0)
    };
    assert(sap2_mnemonic(instr) == mnemonic);
    lemma_mnemonic_found(instr, 0);
    let words = words_of(code_of(line));
    if words.len() == 2 {
        lemma_upper_b(words[1]);
        assert(words.skip(1)[0] == words[1]);
    }
}

/// The words that are `B` in upper case.
proof fn lemma_upper_b(word: Seq<char>)
    ensures
        uppercase(word) == "B"@ <==> word == "B"@ || word == "b"@,
{
    reveal_strlit("B");
    reveal_strlit("b");
    if uppercase(word) == "B"@ {
        assert(uppercase(word).len() == 1 && uppercase(word)[0] == 'B');
        assert(uppercase(word).len() == word.len());
        assert(upper(word[0]) == 'B');
        assert(word[0] == 'B' || word[0] == 'b');
        if word[0] == 'B' {
            assert(word =~= "B"@);
        } else {
            assert(word =~= "b"@);
        }
    } else if word == "B"@ || word == "b"@ {
        assert(uppercase(word) =~= "B"@);
    }
}

/// The SAP-2 instructions that take no notice of what follows them: NOP is
/// the byte 0 and HLT is the byte F0.
pub proof fn law_sap2_idle(line: Seq<char>, number: nat)
    requires
        words_of(code_of(line)).len() > 0,
    ensures
        ({
            let mnemonic = uppercase(words_of(code_of(line))[0]);
            let outcome = assembled_line(line, number, true);
            &&& mnemonic == "NOP"@ ==> outcome == Ok::<Seq<u8>, Seq<char>>(seq![0u8])
            &&& mnemonic == "HLT"@ ==> outcome == Ok::<Seq<u8>, Seq<char>>(seq![0xF0u8])
        }),
{
    lemma_mnemonic_found(control::IN_NOP as int, 0);
    lemma_mnemonic_found(control::IN_HLT as int, 0);
}

/// The data directive: every word behind `DB` becomes a byte of its value,
/// in order. The first word that is no number up to 255 is reported, and so
/// is a directive without data.
pub proof fn law_data_directive(line: Seq<char>, number: nat, sap2: bool)
    requires
        words_of(code_of(line)).len() > 0,
        uppercase(words_of(code_of(line))[0]) == "DB"@,
    ensures
        ({
            let words = words_of(code_of(line));
            let outcome = assembled_line(line, number, sap2);
            let place = "line "@ + decimal(number) + ": "@;
            &&& words.len() == 1 ==> outcome == Err::<Seq<u8>, Seq<char>>(
                place + "DB needs at least one byte"@,
            )
            &&& outcome is Ok ==> {
                &&& outcome->Ok_0.len() == words.len() - 1
                &&& forall|i: int|
                    1 <= i < words.len() ==> parsed_number(#[trigger] words[i]) == Some(
                        outcome->Ok_0[i - 1] as u16,
                    )
            }
            &&& outcome is Err && words.len() > 1 ==> exists|bad: int|
                {
                    &&& 1 <= bad < words.len()
                    &&& forall|i: int|
                        1 <= i < bad ==> parsed_number(#[trigger] words[i]) is Some
                            && parsed_number(words[i])->0 <= 255
                    &&& match parsed_number(#[trigger] words[bad]) {
                        Some(value) => value > 255 && outcome->Err_0 == place
                            + "byte out of range `"@ + decimal(value as nat) + "`"@,
                        None => outcome->Err_0 == place + "bad number `"@ + words[bad] + "`"@,
                    }
                }
        }),
{
    let words = words_of(code_of(line));
    let data = words.skip(1);
    lemma_no_mnemonic_is_directive();
    lemma_not_named("DB"@, 0);
    let outcome = assembled_line(line, number, sap2);
    assert(outcome == directive(data, number));
    if words.len() > 1 {
        lemma_data_bytes(data, number);
        if outcome is Ok {
            assert forall|i: int| 1 <= i < words.len() implies parsed_number(#[trigger] words[i])
                == Some(outcome->Ok_0[i - 1] as u16) by {
                assert(data[i - 1] == words[i]);
            }
        } else {
            let bad = choose|bad: int|
                {
                    &&& 0 <= bad < data.len()
                    &&& forall|i: int|
                        0 <= i < bad ==> byte_operand(#[trigger] data[i], number) is Ok
                    &&& byte_operand(#[trigger] data[bad], number) == Err::<u8, Seq<char>>(
                        outcome->Err_0,
                    )
                };
            assert(words[bad + 1] == data[bad]);
            assert forall|i: int| 1 <= i < bad + 1 implies parsed_number(#[trigger] words[i])
                is Some && parsed_number(words[i])->0 <= 255 by {
                assert(data[i - 1] == words[i]);
                assert(byte_operand(data[i - 1], number) is Ok);
            }
        }
    }
}

/// `DB` is not a mnemonic.
proof fn lemma_no_mnemonic_is_directive()
    ensures
        forall|number: int| 0 <= number < 10 ==> #[trigger] sap1_mnemonic(number) != "DB"@,
        forall|instr: int| 0 <= instr < 24 ==> #[trigger] sap2_mnemonic(instr) != "DB"@,
{
    reveal_strlit("DB");
    assert forall|number: int| 0 <= number < 10 implies #[trigger] sap1_mnemonic(number)
        != "DB"@ by {
        lemma_mnemonic_letters();
        assert(sap1_mnemonic(number)[0] != 'D' || sap1_mnemonic(number)[1] != 'B');
    }
    assert forall|instr: int| 0 <= instr < 24 implies #[trigger] sap2_mnemonic(instr)
        != "DB"@ by {
        lemma_mnemonic_letters();
        assert(sap2_mnemonic(instr)[0] != 'D' || sap2_mnemonic(instr)[1] != 'B');
    }
}

/// The letters of the mnemonics.
proof fn lemma_mnemonic_letters()
    ensures
        "NOP"@[0] == 'N' && "LDA"@[0] == 'L' && "STA"@[0] == 'S' && "ADD"@[0] == 'A',
        "MVIA"@[0] == 'M' && "MVIB"@[0] == 'M' && "SUB"@[0] == 'S' && "ANA"@[0] == 'A',
        "ORA"@[0] == 'O' && "XRA"@[0] == 'X' && "CMA"@[0] == 'C' && "INRA"@[0] == 'I',
        "DCRA"@[1] == 'C' && "IN"@[0] == 'I' && "OUT"@[0] == 'O' && "JMP"@[0] == 'J',
        "JZ"@[0] == 'J' && "JNZ"@[0] == 'J' && "JM"@[0] == 'J' && "CALL"@[0] == 'C',
        "RET"@[0] == 'R' && "PSHA"@[0] == 'P' && "POPA"@[0] == 'P' && "HLT"@[0] == 'H',
        "LDI"@[0] == 'L' && "JC"@[0] == 'J',
{
    reveal_strlit("NOP");
    reveal_strlit("LDA");
    reveal_strlit("STA");
    reveal_strlit("ADD");
    reveal_strlit("MVIA");
    reveal_strlit("MVIB");
    reveal_strlit("SUB");
    reveal_strlit("ANA");
    reveal_strlit("ORA");
    reveal_strlit("XRA");
    reveal_strlit("CMA");
    reveal_strlit("INRA");
    reveal_strlit("DCRA");
    reveal_strlit("IN");
    reveal_strlit("OUT");
    reveal_strlit("JMP");
    reveal_strlit("JZ");
    reveal_strlit("JNZ");
    reveal_strlit("JM");
    reveal_strlit("CALL");
    reveal_strlit("RET");
    reveal_strlit("PSHA");
    reveal_strlit("POPA");
    reveal_strlit("HLT");
    reveal_strlit("LDI");
    reveal_strlit("JC");
}

/// Data bytes are the values of their words, or the first bad word is to
/// blame.
proof fn lemma_data_bytes(words: Seq<Seq<char>>, number: nat)
    ensures
        ({
            let outcome = data_bytes(words, number);
            &&& outcome is Ok ==> {
                &&& outcome->Ok_0.len() == words.len()
                &&& forall|i: int|
                    0 <= i < words.len() ==> byte_operand(#[trigger] words[i], number) == Ok::<
                        u8,
                        Seq<char>,
                    >(outcome->Ok_0[i])
            }
            &&& outcome is Err ==> exists|bad: int|
                {
                    &&& 0 <= bad < words.len()
                    &&& forall|i: int|
                        0 <= i < bad ==> byte_operand(#[trigger] words[i], number) is Ok
                    &&& byte_operand(#[trigger] words[bad], number) == Err::<u8, Seq<char>>(
                        outcome->Err_0,
                    )
                }
        }),
    decreases words.len(),
{
    if words.len() > 0 {
        let fewer = words.drop_last();
        lemma_data_bytes(fewer, number);
        let outcome = data_bytes(words, number);
        match data_bytes(fewer, number) {
            Ok(bytes) => {
                assert forall|i: int| 0 <= i < fewer.len() implies byte_operand(
                    #[trigger] words[i],
                    number,
                ) == Ok::<u8, Seq<char>>(bytes[i]) by {
                    assert(fewer[i] == words[i]);
                }
                if outcome is Err {
                    assert(words[words.len() - 1] == words.last());
                }
            },
            Err(message) => {
                let bad = choose|bad: int|
                    {
                        &&& 0 <= bad < fewer.len()
                        &&& forall|i: int|
                            0 <= i < bad ==> byte_operand(#[trigger] fewer[i], number) is Ok
                        &&& byte_operand(#[trigger] fewer[bad], number) == Err::<u8, Seq<char>>(
                            message,
                        )
                    };
                assert(words[bad] == fewer[bad]);
                assert forall|i: int| 0 <= i < bad implies byte_operand(
                    #[trigger] words[i],
                    number,
                ) is Ok by {
                    assert(fewer[i] == words[i]);
                }
            },
        }
    }
}

/// A first word that is no mnemonic and not `DB` is reported.
pub proof fn law_unknown_mnemonic(line: Seq<char>, number: nat, sap2: bool)
    requires
        words_of(code_of(line)).len() > 0,
        ({
            let word = uppercase(words_of(code_of(line))[0]);
            &&& word != "NOP"@ && word != "LDA"@ && word != "STA"@ && word != "ADD"@
            &&& word != "SUB"@ && word != "JMP"@ && word != "JZ"@ && word != "HLT"@
            &&& word != "DB"@
            &&& !sap2 ==> word != "LDI"@ && word != "JC"@
            &&& sap2 ==> {
                &&& word != "MVIA"@ && word != "MVIB"@ && word != "ANA"@ && word != "ORA"@
                &&& word != "XRA"@ && word != "CMA"@ && word != "INRA"@ && word != "DCRA"@
                &&& word != "IN"@ && word != "OUT"@ && word != "JNZ"@ && word != "JM"@
                &&& word != "CALL"@ && word != "RET"@ && word != "PSHA"@ && word != "POPA"@
            }
        }),
    ensures
        assembled_line(line, number, sap2) == Err::<Seq<u8>, Seq<char>>(
            "line "@ + decimal(number) + ": "@ + "unknown instruction `"@ + uppercase(
                words_of(code_of(line))[0],
            ) + "`"@,
        ),
{
    let word = uppercase(words_of(code_of(line))[0]);
    if sap2 {
        assert forall|instr: int| 0 <= instr < 24 implies #[trigger] sap2_mnemonic(instr)
            != word by {}
    } else {
        assert forall|number: int| 0 <= number < 10 implies #[trigger] sap1_mnemonic(number)
            != word by {}
    }
    lemma_not_named(word, 0);
}

/// The bytes of a line do not depend on where it stands.
proof fn lemma_number_only_in_errors(line: Seq<char>, number: nat, other: nat, sap2: bool)
    requires
        assembled_line(line, number, sap2) is Ok,
    ensures
        assembled_line(line, other, sap2) == assembled_line(line, number, sap2),
{
    let words = words_of(code_of(line));
    if words.len() > 0 {
        lemma_data_anywhere(words.skip(1), number, other);
    }
}

/// Data bytes do not depend on where they stand.
proof fn lemma_data_anywhere(words: Seq<Seq<char>>, number: nat, other: nat)
    ensures
        data_bytes(words, number) is Ok ==> data_bytes(words, other) == data_bytes(words, number),
    decreases words.len(),
{
    if words.len() > 0 {
        lemma_data_anywhere(words.drop_last(), number, other);
    }
}

/// Lines assemble one after the other: the bytes of all lines are the bytes
/// of the first ones followed by those of the others, one line assembles
/// like itself, and no lines give no bytes.
pub proof fn law_lines_join(first: Seq<Seq<char>>, second: Seq<Seq<char>>, sap2: bool)
    ensures
        assembled(first, sap2) is Ok && assembled(second, sap2) is Ok ==> assembled(
            first + second,
            sap2,
        ) == Ok::<Seq<u8>, Seq<char>>(
            assembled(first, sap2)->Ok_0 + assembled(second, sap2)->Ok_0,
        ),
        first.len() == 1 ==> assembled(first, sap2) == assembled_line(first[0], 1, sap2),
        first.len() == 0 ==> assembled(first, sap2) == Ok::<Seq<u8>, Seq<char>>(Seq::empty()),
    decreases second.len(),
{
    if first.len() == 1 {
        reveal_with_fuel(assembled, 2);
        match assembled_line(first[0], 1, sap2) {
            Ok(bytes) => {
                assert(Seq::<u8>::empty() + bytes =~= bytes);
            },
            Err(_) => {},
        }
    }
    if assembled(first, sap2) is Ok && assembled(second, sap2) is Ok {
        if second.len() == 0 {
            assert(first + second =~= first);
            assert(assembled(first, sap2)->Ok_0 + assembled(second, sap2)->Ok_0 =~= assembled(
                first,
                sap2,
            )->Ok_0);
        } else {
            let fewer = second.drop_last();
            law_lines_join(first, fewer, sap2);
            let all = first + second;
            assert(all.drop_last() =~= first + fewer);
            assert(all.last() == second.last());
            lemma_number_only_in_errors(second.last(), second.len(), all.len(), sap2);
            assert(assembled(all, sap2)->Ok_0 =~= assembled(first, sap2)->Ok_0 + assembled(
                second,
                sap2,
            )->Ok_0);
        }
    }
}

/// An error is that of one line, under its number counted from one, and the
/// lines before it are good.
pub proof fn law_error_line(lines: Seq<Seq<char>>, sap2: bool)
    requires
        assembled(lines, sap2) is Err,
    ensures
        exists|bad: int|
            {
                &&& 0 <= bad < lines.len()
                &&& assembled(#[trigger] lines.take(bad), sap2) is Ok
                &&& assembled_line(lines[bad], (bad + 1) as nat, sap2) == Err::<
                    Seq<u8>,
                    Seq<char>,
                >(assembled(lines, sap2)->Err_0)
            },
    decreases lines.len(),
{
    let fewer = lines.drop_last();
    if assembled(fewer, sap2) is Ok {
        assert(lines.take(lines.len() - 1) =~= fewer);
    } else {
        law_error_line(fewer, sap2);
        let bad = choose|bad: int|
            {
                &&& 0 <= bad < fewer.len()
                &&& assembled(#[trigger] fewer.take(bad), sap2) is Ok
                &&& assembled_line(fewer[bad], (bad + 1) as nat, sap2) == Err::<
                    Seq<u8>,
                    Seq<char>,
                >(assembled(fewer, sap2)->Err_0)
            };
        assert(lines.take(bad) =~= fewer.take(bad));
    }
}

/// Two good SAP-2 sources with a line feed between them assemble to the
/// bytes of the first and then those of the second.
pub proof fn law_sap2_sources_join(
    first: &str,
    second: &str,
    whole: &str,
    first_result: Result<Vec<u8>, String>,
    second_result: Result<Vec<u8>, String>,
    result: Result<Vec<u8>, String>,
)
    requires
        assemble_sap2.ensures((first,), first_result),
        assemble_sap2.ensures((second,), second_result),
        assemble_sap2.ensures((whole,), result),
        whole@ == first@ + seq!['\n'] + second@,
        first_result is Ok,
        second_result is Ok,
    ensures
        result is Ok,
        result->Ok_0@ == first_result->Ok_0@ + second_result->Ok_0@,
{
    law_lines(first@, second@);
    law_lines_join(lines_of(first@), lines_of(second@), true);
}

/// Two good SAP-1 sources with a line feed between them assemble to the
/// bytes of the first and then those of the second.
pub proof fn law_sap1_sources_join(
    first: &str,
    second: &str,
    whole: &str,
    first_result: Result<Vec<u8>, String>,
    second_result: Result<Vec<u8>, String>,
    result: Result<Vec<u8>, String>,
)
    requires
        assemble_sap1.ensures((first,), first_result),
        assemble_sap1.ensures((second,), second_result),
        assemble_sap1.ensures((whole,), result),
        whole@ == first@ + seq!['\n'] + second@,
        first_result is Ok,
        second_result is Ok,
    ensures
        result is Ok,
        result->Ok_0@ == first_result->Ok_0@ + second_result->Ok_0@,
{
    law_lines(first@, second@);
    law_lines_join(lines_of(first@), lines_of(second@), false);
}

/// A source of one line gives the bytes or the message of that line, as
/// line 1, on either machine.
pub proof fn law_one_line_source(
    source: &str,
    sap1_result: Result<Vec<u8>, String>,
    sap2_result: Result<Vec<u8>, String>,
)
    requires
        assemble_sap1.ensures((source,), sap1_result),
        assemble_sap2.ensures((source,), sap2_result),
        !source@.contains('\n'),
    ensures
        match assembled_line(source@, 1, false) {
            Ok(bytes) => sap1_result is Ok && sap1_result->Ok_0@ == bytes,
            Err(message) => sap1_result is Err && sap1_result->Err_0@ == message,
        },
        match assembled_line(source@, 1, true) {
            Ok(bytes) => sap2_result is Ok && sap2_result->Ok_0@ == bytes,
            Err(message) => sap2_result is Err && sap2_result->Err_0@ == message,
        },
{
    law_lines(source@, Seq::empty());
    law_lines_join(seq![source@], Seq::empty(), false);
    law_lines_join(seq![source@], Seq::empty(), true);
}

/// An error message of a source is that of its first bad line.
pub proof fn law_source_error(
    source: &str,
    sap1_result: Result<Vec<u8>, String>,
    sap2_result: Result<Vec<u8>, String>,
)
    requires
        assemble_sap1.ensures((source,), sap1_result),
        assemble_sap2.ensures((source,), sap2_result),
    ensures
        sap1_result is Err ==> exists|bad: int|
            {
                &&& 0 <= bad < lines_of(source@).len()
                &&& assembled(#[trigger] lines_of(source@).take(bad), false) is Ok
                &&& assembled_line(lines_of(source@)[bad], (bad + 1) as nat, false) == Err::<
                    Seq<u8>,
                    Seq<char>,
                >(sap1_result->Err_0@)
            },
        sap2_result is Err ==> exists|bad: int|
            {
                &&& 0 <= bad < lines_of(source@).len()
                &&& assembled(#[trigger] lines_of(source@).take(bad), true) is Ok
                &&& assembled_line(lines_of(source@)[bad], (bad + 1) as nat, true) == Err::<
                    Seq<u8>,
                    Seq<char>,
                >(sap2_result->Err_0@)
            },
{
    if sap1_result is Err {
        law_error_line(lines_of(source@), false);
    }
    if sap2_result is Err {
        law_error_line(lines_of(source@), true);
    }
}

} // verus!
