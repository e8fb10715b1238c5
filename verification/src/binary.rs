use vstd::prelude::*;

use crate::memory::{value_fits, RegisterType, Value, ValueModel};

verus! {

/// First two bytes of a program.
pub const PROGRAM_MAGIC: i16 = -32766;

/// First two bytes of the DATA section.
pub const DATA_SECTION_MAGIC: i16 = -32767;

/// First two bytes of the CODE section.
pub const CODE_SECTION_MAGIC: i16 = 32767;

/// Program header.
pub struct ProgHeader {
    pub magic: i16,
    pub data_size: u16,
    pub code_size: i32,
}

/// DATA section header.
pub struct DataHeader {
    pub magic: i16,
    pub data_size: u16,
}

/// CODE section header.
pub struct CodeHeader {
    pub magic: i16,
    pub code_size: i32,
}

/// One DATA entry: the initial value of a register.
pub struct DataCommand {
    pub registr: u16,
    pub data_type: i8,
    pub value: Value,
}

/// The mathematical model of a [`DataCommand`].
pub struct DataCommandModel {
    pub registr: u16,
    pub data_type: i8,
    pub value: ValueModel,
}

impl View for DataCommand {
    type V = DataCommandModel;

    open spec fn view(&self) -> DataCommandModel {
        DataCommandModel { registr: self.registr, data_type: self.data_type, value: self.value@ }
    }
}

/// One CODE instruction.
#[derive(Clone, Copy)]
pub struct Command {
    pub opcode: u16,
    pub result_reg: u16,
    pub arg_reg1: u16,
    pub arg_reg2: u16,
}

/// Operands of a conditional block.
pub struct If {
    pub len: u32,
    pub bool_registr: u16,
}

/// Operand of a jump.
pub struct Jmp {
    pub jump_distance: i32,
}

/// Why a program image was refused.
#[derive(Debug, Clone, Copy, PartialEq, Eq, Structural)]
pub enum ParseError {
    /// The image ends inside a header, an entry or an instruction.
    UnexpectedEof,
    InvalidProgramMagic,
    InvalidDataMagic,
    /// A DATA entry's type byte is none of 1 to 5.
    UnknownDataType,
    InvalidCodeMagic,
}

/// Little-endian unsigned integers of 2, 4 and 8 bytes at `at`.
pub open spec fn le_u16(b: Seq<u8>, at: int) -> int {
    b[at] + 256 * b[at + 1]
}

pub open spec fn le_u32(b: Seq<u8>, at: int) -> int {
    le_u16(b, at) + 65536 * le_u16(b, at + 2)
}

pub open spec fn le_u64(b: Seq<u8>, at: int) -> int {
    le_u32(b, at) + 4294967296 * le_u32(b, at + 4)
}

/// Two's complement reading of an unsigned value `u` of `2^bits` range.
pub open spec fn twos_complement(u: int, range: int) -> int {
    if u >= range / 2 {
        u - range
    } else {
        u
    }
}

pub open spec fn le_i16(b: Seq<u8>, at: int) -> int {
    twos_complement(le_u16(b, at), 65536)
}

pub open spec fn le_i32(b: Seq<u8>, at: int) -> int {
    twos_complement(le_u32(b, at), 4294967296)
}

pub open spec fn le_i64(b: Seq<u8>, at: int) -> int {
    twos_complement(le_u64(b, at), 18446744073709551616)
}

fn read_u16(b: &[u8], at: usize) -> (r: u16)
    requires
        at + 2 <= b.len(),
    ensures
        r == le_u16(b@, at as int),
{
    b[at] as u16 + 256 * (b[at + 1] as u16)
}

fn read_u32(b: &[u8], at: usize) -> (r: u32)
    requires
        at + 4 <= b.len(),
    ensures
        r == le_u32(b@, at as int),
{
    read_u16(b, at) as u32 + 65536 * (read_u16(b, at + 2) as u32)
}

fn read_u64(b: &[u8], at: usize) -> (r: u64)
    requires
        at + 8 <= b.len(),
    ensures
        r == le_u64(b@, at as int),
{
    read_u32(b, at) as u64 + 4294967296 * (read_u32(b, at + 4) as u64)
}

fn read_i16(b: &[u8], at: usize) -> (r: i16)
    requires
        at + 2 <= b.len(),
    ensures
        r == le_i16(b@, at as int),
{
    let u = read_u16(b, at);
    if u >= 32768 {
        (u as i32 - 65536) as i16
    } else {
        u as i16
    }
}

fn read_i32(b: &[u8], at: usize) -> (r: i32)
    requires
        at + 4 <= b.len(),
    ensures
        r == le_i32(b@, at as int),
{
    let u = read_u32(b, at);
    if u >= 2147483648 {
        (u as i64 - 4294967296) as i32
    } else {
        u as i32
    }
}

fn read_i64(b: &[u8], at: usize) -> (r: i64)
    requires
        at + 8 <= b.len(),
    ensures
        r == le_i64(b@, at as int),
{
    let u = read_u64(b, at);
    if u > 9223372036854775807 {
        -((18446744073709551615 - u) as i64) - 1
    } else {
        u as i64
    }
}


/// Whether `u` is a Unicode scalar value, the range of `char`.
pub open spec fn is_scalar_value(u: u32) -> bool {
    u < 0xd800 || (0xe000 <= u && u <= 0x10ffff)
}

/// `char::from_u32`: the character with code `u`, if `u` is a Unicode scalar value.
#[verifier::external_body]
fn char_from_u32(u: u32) -> (r: Option<char>)
    ensures
        r == (if is_scalar_value(u) {
            Some(u as char)
        } else {
            None::<char>
        }),
{
    char::from_u32(u)
}

/// Name for what `String::from_utf8_lossy` returns: the bytes decoded as
/// UTF-8, each invalid sequence replaced by U+FFFD.
pub uninterp spec fn utf8_lossy(bytes: Seq<u8>) -> Seq<char>;

/// `String::from_utf8_lossy`. Its result is named by `utf8_lossy`; of it the
/// contract states only that ASCII bytes decode one for one to the same
/// characters (ASCII is valid UTF-8, one byte per character). The decoding of
/// other bytes is left unsaid.
#[verifier::external_body]
fn decode_utf8_lossy(bytes: &[u8]) -> (s: String)
    ensures
        s@ == utf8_lossy(bytes@),
        (forall|i: int| 0 <= i < bytes@.len() ==> #[trigger] bytes@[i] < 128) ==> s@ == bytes@.map_values(
            |b: u8| b as char,
        ),
{
    String::from_utf8_lossy(bytes).into_owned()
}

/// Number of bytes before the first zero byte, or all of them.
pub open spec fn text_len(v: Seq<u8>) -> nat
    decreases v.len(),
{
    if v.len() == 0 || v[0] == 0 {
        0
    } else {
        1 + text_len(v.drop_first())
    }
}

proof fn lemma_text_len(v: Seq<u8>, k: int)
    requires
        0 <= k <= v.len(),
        forall|j: int| 0 <= j < k ==> #[trigger] v[j] != 0,
        k == v.len() || v[k] == 0,
    ensures
        text_len(v) == k,
    decreases k,
{
    if k > 0 {
        let t = v.drop_first();
        assert forall|j: int| 0 <= j < k - 1 implies #[trigger] t[j] != 0 by {
            assert(t[j] == v[j + 1]);
        }
        if k < v.len() {
            assert(t[k - 1] == v[k]);
        }
        lemma_text_len(t, k - 1);
    }
}

/// Bytes that are all ASCII.
pub open spec fn all_ascii(t: Seq<u8>) -> bool {
    forall|i: int| 0 <= i < t.len() ==> #[trigger] t[i] < 128
}

/// The text of a string entry: ASCII bytes are the characters themselves;
/// other bytes are decoded as UTF-8 with replacement.
pub open spec fn entry_text(t: Seq<u8>) -> Seq<char> {
    if all_ascii(t) {
        t.map_values(|b: u8| b as char)
    } else {
        utf8_lossy(t)
    }
}

/// The value of the DATA entry of 32 bytes at `o`, for each known type byte:
/// 1 an `i64`, 2 the bits of an `f64`, 3 a boolean (a nonzero byte), 4 the
/// text before the first zero byte of 29, decoded as UTF-8 with replacement,
/// 5 the character of a `u32` code, `?` where the code is none.
pub open spec fn entry_value(b: Seq<u8>, o: int) -> Option<ValueModel> {
    let v = b.subrange(o + 3, o + 32);
    let t = b[o + 2];
    if t == 1 {
        Some(ValueModel::Int(le_i64(b, o + 3) as i64))
    } else if t == 2 {
        Some(ValueModel::Float(le_u64(b, o + 3) as u64))
    } else if t == 3 {
        Some(ValueModel::Bool(b[o + 3] != 0))
    } else if t == 4 {
        Some(ValueModel::String(entry_text(v.take(text_len(v) as int))))
    } else if t == 5 {
        let u = le_u32(b, o + 3) as u32;
        Some(ValueModel::Char(if is_scalar_value(u) { u as char } else { '?' }))
    } else {
        None
    }
}

/// The DATA entry of 32 bytes at `o`, or `None` for an unknown type byte.
pub open spec fn data_entry(b: Seq<u8>, o: int) -> Option<DataCommandModel> {
    match entry_value(b, o) {
        Some(v) => Some(
            DataCommandModel { registr: le_u16(b, o) as u16, data_type: b[o + 2] as i8, value: v },
        ),
        None => None,
    }
}

fn parse_data_entry(b: &[u8], o: usize) -> (r: Option<DataCommand>)
    requires
        o + 32 <= b.len(),
    ensures
        match r {
            Some(c) => data_entry(b@, o as int) == Some(c@),
            None => data_entry(b@, o as int) is None,
        },
{
    let registr = read_u16(b, o);
    let t = b[o + 2];
    let value = if t == 1 {
        Value::Int(read_i64(b, o + 3))
    } else if t == 2 {
        Value::Float(read_u64(b, o + 3))
    } else if t == 3 {
        Value::Bool(b[o + 3] != 0)
    } else if t == 4 {
        let mut k: usize = 0;
        while k < 29 && b[o + 3 + k] != 0
            invariant
                k <= 29,
                o + 32 <= b.len(),
                forall|j: int| 0 <= j < k ==> #[trigger] b@[o + 3 + j] != 0,
            decreases 29 - k,
        {
            k += 1;
        }
        let ghost v = b@.subrange(o + 3, o + 32);
        proof {
            assert forall|j: int| 0 <= j < k implies #[trigger] v[j] != 0 by {
                assert(v[j] == b@[o + 3 + j]);
            }
            lemma_text_len(v, k as int);
        }
        let text = vstd::slice::slice_subrange(b, o + 3, o + 3 + k);
        assert(text@ =~= v.take(k as int));
        Value::String(decode_utf8_lossy(text))
    } else if t == 5 {
        let u = read_u32(b, o + 3);
        Value::Char(
            match char_from_u32(u) {
                Some(c) => c,
                None => '?',
            },
        )
    } else {
        return None;
    };
    Some(DataCommand { registr, data_type: t as i8, value })
}


/// Offset of the `i`-th DATA entry.
pub open spec fn entry_offset(i: int) -> int {
    10 + 32 * i
}

/// The first `n` DATA entries, or the error of the first one that fails.
pub open spec fn data_entries(b: Seq<u8>, n: nat) -> Result<Seq<DataCommandModel>, ParseError>
    decreases n,
{
    if n == 0 {
        Ok(Seq::empty())
    } else {
        match data_entries(b, (n - 1) as nat) {
            Err(e) => Err(e),
            Ok(s) => {
                let o = entry_offset(n - 1);
                if b.len() < o + 32 {
                    Err(ParseError::UnexpectedEof)
                } else {
                    match data_entry(b, o) {
                        Some(c) => Ok(s.push(c)),
                        None => Err(ParseError::UnknownDataType),
                    }
                }
            },
        }
    }
}

/// The headers and DATA entries of a program image, read in order: program
/// header (magic, DATA count, CODE count), DATA magic, the entries, CODE magic.
pub open spec fn sections(b: Seq<u8>) -> Result<
    (ProgHeader, DataHeader, Seq<DataCommandModel>, CodeHeader),
    ParseError,
> {
    if b.len() < 8 {
        Err(ParseError::UnexpectedEof)
    } else if le_i16(b, 0) != PROGRAM_MAGIC {
        Err(ParseError::InvalidProgramMagic)
    } else if b.len() < 10 {
        Err(ParseError::UnexpectedEof)
    } else if le_i16(b, 8) != DATA_SECTION_MAGIC {
        Err(ParseError::InvalidDataMagic)
    } else {
        let ds = le_u16(b, 2) as u16;
        let cs = le_i32(b, 4) as i32;
        match data_entries(b, ds as nat) {
            Err(e) => Err(e),
            Ok(entries) => {
                let o = entry_offset(ds as int);
                if b.len() < o + 2 {
                    Err(ParseError::UnexpectedEof)
                } else if le_i16(b, o) != CODE_SECTION_MAGIC {
                    Err(ParseError::InvalidCodeMagic)
                } else {
                    Ok(
                        (
                            ProgHeader { magic: PROGRAM_MAGIC, data_size: ds, code_size: cs },
                            DataHeader { magic: DATA_SECTION_MAGIC, data_size: ds },
                            entries,
                            CodeHeader { magic: CODE_SECTION_MAGIC, code_size: cs },
                        ),
                    )
                }
            },
        }
    }
}

/// The instruction of 8 bytes at `o`.
pub open spec fn command_at(b: Seq<u8>, o: int) -> Command {
    Command {
        opcode: le_u16(b, o) as u16,
        result_reg: le_u16(b, o + 2) as u16,
        arg_reg1: le_u16(b, o + 4) as u16,
        arg_reg2: le_u16(b, o + 6) as u16,
    }
}

/// The `n` instructions starting at `o`.
pub open spec fn commands_at(b: Seq<u8>, o: int, n: nat) -> Seq<Command> {
    Seq::new(n, |j: int| command_at(b, o + 8 * j))
}

/// The headers of the image parse and announce a negative number of
/// instructions, for which no vector can be allocated.
pub open spec fn negative_code_size(b: Seq<u8>) -> bool {
    sections(b) matches Ok(s) && s.3.code_size < 0
}

/// A whole program image: the sections, then the instructions.
pub open spec fn program(b: Seq<u8>) -> Result<
    (ProgHeader, DataHeader, Seq<DataCommandModel>, CodeHeader, Seq<Command>),
    ParseError,
> {
    match sections(b) {
        Err(e) => Err(e),
        Ok(s) => {
            let o = entry_offset(s.1.data_size as int) + 2;
            let n = s.3.code_size as int;
            if b.len() < o + 8 * n {
                Err(ParseError::UnexpectedEof)
            } else {
                Ok((s.0, s.1, s.2, s.3, commands_at(b, o, n as nat)))
            }
        },
    }
}

pub open spec fn entries_view(v: Seq<DataCommand>) -> Seq<DataCommandModel> {
    v.map_values(|c: DataCommand| c@)
}

proof fn lemma_data_entries_error_stays(b: Seq<u8>, i: nat, n: nat)
    requires
        i <= n,
        data_entries(b, i) is Err,
    ensures
        data_entries(b, n) == data_entries(b, i),
    decreases n - i,
{
    if i < n {
        lemma_data_entries_error_stays(b, i, (n - 1) as nat);
    }
}

/// Reads the headers and the DATA entries of a program image.
pub fn parse_sections(bytes: &[u8]) -> (r: Result<
    (ProgHeader, DataHeader, Vec<DataCommand>, CodeHeader),
    ParseError,
>)
    ensures
        match r {
            Ok(s) => sections(bytes@) == Ok::<_, ParseError>(
                (s.0, s.1, entries_view(s.2@), s.3),
            ),
            Err(e) => sections(bytes@) == Err::<
                (ProgHeader, DataHeader, Seq<DataCommandModel>, CodeHeader),
                ParseError,
            >(e),
        },
{
    let n = bytes.len();
    if n < 8 {
        return Err(ParseError::UnexpectedEof);
    }
    let prog_magic = read_i16(bytes, 0);
    let data_size = read_u16(bytes, 2);
    let code_size = read_i32(bytes, 4);
    if prog_magic != PROGRAM_MAGIC {
        return Err(ParseError::InvalidProgramMagic);
    }
    if n < 10 {
        return Err(ParseError::UnexpectedEof);
    }
    if read_i16(bytes, 8) != DATA_SECTION_MAGIC {
        return Err(ParseError::InvalidDataMagic);
    }
    let mut entries: Vec<DataCommand> = Vec::new();
    assert(entries_view(entries@) =~= Seq::<DataCommandModel>::empty());
    let mut i: u16 = 0;
    while i < data_size
        invariant
            n == bytes.len(),
            n >= 10,
            le_i16(bytes@, 0) == PROGRAM_MAGIC,
            le_i16(bytes@, 8) == DATA_SECTION_MAGIC,
            data_size == le_u16(bytes@, 2) as u16,
            i <= data_size,
            data_entries(bytes@, i as nat) == Ok::<_, ParseError>(entries_view(entries@)),
        decreases data_size - i,
    {
        let o: usize = 10 + 32 * (i as usize);
        if n < o + 32 {
            proof {
                lemma_data_entries_error_stays(bytes@, (i + 1) as nat, data_size as nat);
            }
            return Err(ParseError::UnexpectedEof);
        }
        match parse_data_entry(bytes, o) {
            Some(c) => {
                let ghost before = entries@;
                let ghost cv = c@;
                entries.push(c);
                assert(entries_view(entries@) =~= entries_view(before).push(cv));
            },
            None => {
                proof {
                    lemma_data_entries_error_stays(bytes@, (i + 1) as nat, data_size as nat);
                }
                return Err(ParseError::UnknownDataType);
            },
        }
        i += 1;
    }
    let o: usize = 10 + 32 * (data_size as usize);
    if n < o + 2 {
        return Err(ParseError::UnexpectedEof);
    }
    if read_i16(bytes, o) != CODE_SECTION_MAGIC {
        return Err(ParseError::InvalidCodeMagic);
    }
    Ok(
        (
            ProgHeader { magic: prog_magic, data_size, code_size },
            DataHeader { magic: DATA_SECTION_MAGIC, data_size },
            entries,
            CodeHeader { magic: CODE_SECTION_MAGIC, code_size },
        ),
    )
}


fn read_command(b: &[u8], o: usize) -> (c: Command)
    requires
        o + 8 <= b.len(),
    ensures
        c == command_at(b@, o as int),
{
    Command {
        opcode: read_u16(b, o),
        result_reg: read_u16(b, o + 2),
        arg_reg1: read_u16(b, o + 4),
        arg_reg2: read_u16(b, o + 6),
    }
}

/// Reads a whole program image: the program header, the DATA section and the
/// CODE section. An image whose headers announce a negative number of
/// instructions is not accepted: no vector of that capacity can be made.
pub fn parse_binary(bytes: &[u8]) -> (r: Result<
    (ProgHeader, DataHeader, Vec<DataCommand>, CodeHeader, Vec<Command>),
    ParseError,
>)
    requires
        !negative_code_size(bytes@),
    ensures
        match r {
            Ok(p) => program(bytes@) == Ok::<_, ParseError>(
                (p.0, p.1, entries_view(p.2@), p.3, p.4@),
            ),
            Err(e) => program(bytes@) == Err::<
                (ProgHeader, DataHeader, Seq<DataCommandModel>, CodeHeader, Seq<Command>),
                ParseError,
            >(e),
        },
{
    let (prog_header, data_header, entries, code_header) = match parse_sections(bytes) {
        Ok(s) => s,
        Err(e) => return Err(e),
    };
    let n = bytes.len();
    let o: usize = 12 + 32 * (data_header.data_size as usize);
    let count = code_header.code_size as usize;
    if (n - o) / 8 < count {
        return Err(ParseError::UnexpectedEof);
    }
    let mut commands: Vec<Command> = Vec::new();
    let mut j: usize = 0;
    while j < count
        invariant
            n == bytes.len(),
            j <= count,
            o + 8 * count <= n,
            commands@ == commands_at(bytes@, o as int, j as nat),
        decreases count - j,
    {
        commands.push(read_command(bytes, o + 8 * j));
        j += 1;
        assert(commands@ =~= commands_at(bytes@, o as int, j as nat));
    }
    Ok((prog_header, data_header, entries, code_header, commands))
}


/// The bank that a DATA type byte names: 1 integer, 2 float, 3 boolean,
/// 4 string, 5 character.
pub open spec fn data_type_bank(t: i8) -> Option<RegisterType> {
    if t == 1 {
        Some(RegisterType::Int)
    } else if t == 2 {
        Some(RegisterType::Float)
    } else if t == 3 {
        Some(RegisterType::Bool)
    } else if t == 4 {
        Some(RegisterType::String)
    } else if t == 5 {
        Some(RegisterType::Char)
    } else {
        None
    }
}

/// A DATA entry whose type byte names a bank and whose value belongs to it.
pub open spec fn well_typed(c: DataCommandModel) -> bool {
    data_type_bank(c.data_type) matches Some(t) && value_fits(t, c.value)
}

proof fn lemma_data_entries_shape(b: Seq<u8>, n: nat)
    requires
        data_entries(b, n) is Ok,
    ensures
        data_entries(b, n)->Ok_0.len() == n,
        forall|i: int|
            0 <= i < n ==> well_typed(#[trigger] data_entries(b, n)->Ok_0[i]),
        n > 0 ==> b.len() >= entry_offset(n as int),
    decreases n,
{
    if n > 0 {
        lemma_data_entries_shape(b, (n - 1) as nat);
        let prev = data_entries(b, (n - 1) as nat)->Ok_0;
        lemma_data_entries_shape(b, (n - 1) as nat);
        let o = entry_offset(n - 1);
        let c = data_entry(b, o)->Some_0;
        let t = b[o + 2];
        assert(well_typed(c)) by {
            if t == 1 {
                assert(c.data_type == 1);
            } else if t == 2 {
                assert(c.data_type == 2);
            } else if t == 3 {
                assert(c.data_type == 3);
            } else if t == 4 {
                assert(c.data_type == 4);
            } else {
                assert(c.data_type == 5);
            }
        }
        assert forall|i: int| 0 <= i < n implies well_typed(
            #[trigger] data_entries(b, n)->Ok_0[i],
        ) by {
            if i < n - 1 {
                assert(data_entries(b, n)->Ok_0[i] == prev[i]);
            }
        }
    }
}

/// What a successfully read image holds: the magic numbers, one count of
/// DATA entries and one of instructions in both headers, exactly that many
/// entries and instructions, and entries whose values match their type byte.
pub proof fn lemma_program_shape(b: Seq<u8>)
    requires
        program(b) is Ok,
        !negative_code_size(b),
    ensures
        ({
            let p = program(b)->Ok_0;
            &&& p.0.magic == PROGRAM_MAGIC
            &&& p.1.magic == DATA_SECTION_MAGIC
            &&& p.3.magic == CODE_SECTION_MAGIC
            &&& p.1.data_size == p.0.data_size
            &&& p.3.code_size == p.0.code_size
            &&& p.2.len() == p.0.data_size
            &&& p.4.len() == p.0.code_size
            &&& forall|i: int| 0 <= i < p.2.len() ==> well_typed(#[trigger] p.2[i])
        }),
{
    let s = sections(b)->Ok_0;
    lemma_data_entries_shape(b, s.0.data_size as nat);
}

proof fn lemma_data_entries_prefix(b: Seq<u8>, x: Seq<u8>, n: nat)
    requires
        data_entries(b, n) is Ok,
    ensures
        data_entries(b + x, n) == data_entries(b, n),
    decreases n,
{
    if n > 0 {
        lemma_data_entries_prefix(b, x, (n - 1) as nat);
        lemma_data_entries_shape(b, n);
        let o = entry_offset(n - 1);
        let bx = b + x;
        assert(bx.subrange(o + 3, o + 32) =~= b.subrange(o + 3, o + 32));
        assert(data_entry(bx, o) == data_entry(b, o));
    }
}

/// Bytes after a complete image are not read: appending any bytes to an image
/// that reads successfully gives the same program.
pub proof fn lemma_program_ignores_trailing_bytes(b: Seq<u8>, x: Seq<u8>)
    requires
        program(b) is Ok,
        !negative_code_size(b),
    ensures
        program(b + x) == program(b),
{
    let bx = b + x;
    let s = sections(b)->Ok_0;
    lemma_data_entries_prefix(b, x, s.0.data_size as nat);
    assert(sections(bx) == sections(b));
    let o = entry_offset(s.1.data_size as int) + 2;
    let n = s.3.code_size as nat;
    assert forall|j: int| 0 <= j < n implies #[trigger] command_at(bx, o + 8 * j) == command_at(
        b,
        o + 8 * j,
    ) by {
        assert(o + 8 * j + 8 <= b.len());
    }
    assert(commands_at(bx, o, n) =~= commands_at(b, o, n));
}


/// Where a program image ends, by its header: the program header, the DATA
/// magic and entries, the CODE magic and instructions.
pub open spec fn image_len(b: Seq<u8>) -> int {
    12 + 32 * le_u16(b, 2) + 8 * le_i32(b, 4)
}

/// `p` has the bytes of `b` at every index below `m` that `p` has.
pub open spec fn agrees_below(p: Seq<u8>, b: Seq<u8>, m: int) -> bool {
    forall|k: int| 0 <= k < m && k < p.len() ==> #[trigger] p[k] == b[k]
}

proof fn lemma_data_entries_agree(b: Seq<u8>, p: Seq<u8>, n: nat, m: int)
    requires
        data_entries(b, n) is Ok,
        p.len() >= 10,
        entry_offset(n as int) <= m <= b.len(),
        agrees_below(p, b, m),
    ensures
        p.len() >= entry_offset(n as int) ==> data_entries(p, n) == data_entries(b, n),
        p.len() < entry_offset(n as int) ==> data_entries(p, n) == Err::<
            Seq<DataCommandModel>,
            ParseError,
        >(ParseError::UnexpectedEof),
    decreases n,
{
    if n > 0 {
        lemma_data_entries_shape(b, n);
        lemma_data_entries_agree(b, p, (n - 1) as nat, m);
        let o = entry_offset(n - 1);
        if p.len() >= o + 32 {
            assert forall|k: int| o <= k < o + 32 implies p[k] == b[k] by {
                assert(p[k] == b[k]);
            }
            assert(p.subrange(o + 3, o + 32) =~= b.subrange(o + 3, o + 32));
            assert(data_entry(p, o) == data_entry(b, o));
        }
    }
}

/// A program image is read up to the end its header announces and no
/// further: any bytes that agree with it below that end, and reach it, read
/// as the same program; any that stop short of it fail with `UnexpectedEof`.
pub proof fn lemma_program_reads_to_its_end(b: Seq<u8>, p: Seq<u8>)
    requires
        program(b) is Ok,
        !negative_code_size(b),
        agrees_below(p, b, image_len(b)),
    ensures
        !negative_code_size(p),
        p.len() >= image_len(b) ==> program(p) == program(b),
        p.len() < image_len(b) ==> program(p) == Err::<
            (ProgHeader, DataHeader, Seq<DataCommandModel>, CodeHeader, Seq<Command>),
            ParseError,
        >(ParseError::UnexpectedEof),
{
    let s = sections(b)->Ok_0;
    let ds = s.0.data_size as nat;
    let cs = s.3.code_size as int;
    let end = image_len(b);
    lemma_data_entries_shape(b, ds);
    assert(end == entry_offset(ds as int) + 2 + 8 * cs);
    assert(b.len() >= end);
    if p.len() >= 8 {
        assert(le_i16(p, 0) == le_i16(b, 0) && le_u16(p, 2) == le_u16(b, 2) && le_i32(p, 4)
            == le_i32(b, 4)) by {
            assert(p[0] == b[0] && p[1] == b[1] && p[2] == b[2] && p[3] == b[3]);
            assert(p[4] == b[4] && p[5] == b[5] && p[6] == b[6] && p[7] == b[7]);
        }
    }
    if p.len() >= 10 {
        assert(p[8] == b[8] && p[9] == b[9]);
        lemma_data_entries_agree(b, p, ds, end);
        let o = entry_offset(ds as int);
        if p.len() >= o + 2 {
            assert(p[o] == b[o] && p[o + 1] == b[o + 1]);
            assert(sections(p) == sections(b));
            if p.len() >= end {
                let o2 = o + 2;
                assert forall|j: int| 0 <= j < cs implies #[trigger] command_at(p, o2 + 8 * j)
                    == command_at(b, o2 + 8 * j) by {
                    let q = o2 + 8 * j;
                    assert(p[q] == b[q] && p[q + 1] == b[q + 1] && p[q + 2] == b[q + 2] && p[q
                        + 3] == b[q + 3]);
                    assert(p[q + 4] == b[q + 4] && p[q + 5] == b[q + 5] && p[q + 6] == b[q + 6]
                        && p[q + 7] == b[q + 7]);
                }
                assert(commands_at(p, o2, cs as nat) =~= commands_at(b, o2, cs as nat));
            }
        }
    }
}


/// A string DATA entry whose 29 value bytes are ASCII holds exactly the
/// characters of the bytes before the first zero byte, or of all 29 if none
/// is zero: every nonzero byte, a space too, is kept.
pub proof fn lemma_ascii_string_entry(b: Seq<u8>, o: int, k: int)
    requires
        0 <= o,
        o + 32 <= b.len(),
        b[o + 2] == 4,
        0 <= k <= 29,
        forall|j: int| 0 <= j < 29 ==> #[trigger] b[o + 3 + j] < 128,
        forall|j: int| 0 <= j < k ==> #[trigger] b[o + 3 + j] != 0,
        k == 29 || b[o + 3 + k] == 0,
    ensures
        data_entry(b, o) is Some,
        data_entry(b, o)->Some_0.data_type == 4,
        data_entry(b, o)->Some_0.value == ValueModel::String(
            Seq::new(k as nat, |j: int| b[o + 3 + j] as char),
        ),
{
    let v = b.subrange(o + 3, o + 32);
    assert forall|j: int| 0 <= j < k implies #[trigger] v[j] != 0 by {
        assert(v[j] == b[o + 3 + j]);
    }
    if k < 29 {
        assert(v[k] == b[o + 3 + k]);
    }
    lemma_text_len(v, k);
    let t = v.take(k);
    assert forall|i: int| 0 <= i < t.len() implies #[trigger] t[i] < 128 by {
        assert(t[i] == b[o + 3 + i]);
    }
    assert(t.map_values(|x: u8| x as char) =~= Seq::new(k as nat, |j: int| b[o + 3 + j] as char));
}

/// A DATA entry of type 1 holds the `i64` whose little-endian bytes are the
/// first 8 value bytes: byte `j` of its two's complement is `b[o + 3 + j]`.
pub proof fn lemma_int_entry(b: Seq<u8>, o: int)
    requires
        0 <= o,
        o + 32 <= b.len(),
        b[o + 2] == 1,
    ensures
        data_entry(b, o) is Some,
        data_entry(b, o)->Some_0.data_type == 1,
        data_entry(b, o)->Some_0.value matches ValueModel::Int(x) && forall|j: int|
            0 <= j < 8 ==> #[trigger] byte_of(x as int, j) == b[o + 3 + j],
{
    let x = le_i64(b, o + 3);
    lemma_le_u64_bytes(b, o + 3);
    let u = le_u64(b, o + 3);
    assert forall|j: int| 0 <= j < 8 implies #[trigger] byte_of(x, j) == b[o + 3 + j] by {
        lemma_byte_of_shift(u, j);
        if u >= 0x8000000000000000 {
            assert(x == u - 0x10000000000000000);
        }
    }
    assert((x as i64) as int == x);
}

/// Byte `j` (from the least significant) of the two's complement of `x`.
pub open spec fn byte_of(x: int, j: int) -> int {
    (x % 0x10000000000000000) / pow256(j) % 256
}

pub open spec fn pow256(j: int) -> int
    decreases j,
{
    if j <= 0 {
        1
    } else {
        256 * pow256(j - 1)
    }
}

proof fn lemma_byte_of_shift(u: int, j: int)
    requires
        0 <= u < 0x10000000000000000,
        0 <= j < 8,
    ensures
        byte_of(u - 0x10000000000000000, j) == byte_of(u, j),
{
    assert((u - 0x10000000000000000) % 0x10000000000000000 == u % 0x10000000000000000);
}

proof fn lemma_le_u64_bytes(b: Seq<u8>, at: int)
    requires
        0 <= at,
        at + 8 <= b.len(),
    ensures
        0 <= le_u64(b, at) < 0x10000000000000000,
        forall|j: int| 0 <= j < 8 ==> #[trigger] byte_of(le_u64(b, at), j) == b[at + j],
{
    let u = le_u64(b, at);
    reveal_with_fuel(pow256, 9);
    assert(u % 0x10000000000000000 == u);
    assert forall|j: int| 0 <= j < 8 implies #[trigger] byte_of(u, j) == b[at + j] by {
        let (b0, b1, b2, b3, b4, b5, b6, b7) = (
            b[at] as int,
            b[at + 1] as int,
            b[at + 2] as int,
            b[at + 3] as int,
            b[at + 4] as int,
            b[at + 5] as int,
            b[at + 6] as int,
            b[at + 7] as int,
        );
        assert(u == b0 + 256 * b1 + 65536 * b2 + 16777216 * b3 + 4294967296 * b4
            + 1099511627776 * b5 + 281474976710656 * b6 + 72057594037927936 * b7);
        if j == 0 {
            assert(u / 1 % 256 == b0) by (nonlinear_arith)
                requires
                    u == b0 + 256 * (b1 + 256 * b2 + 65536 * b3 + 16777216 * b4 + 4294967296 * b5
                        + 1099511627776 * b6 + 281474976710656 * b7),
                    0 <= b0 < 256,
                    0 <= b1 + 256 * b2 + 65536 * b3 + 16777216 * b4 + 4294967296 * b5
                        + 1099511627776 * b6 + 281474976710656 * b7,
            ;
        } else {
            lemma_digit_at(b0, b1, b2, b3, b4, b5, b6, b7, j);
        }
    }
}

proof fn lemma_digit_at(
    b0: int,
    b1: int,
    b2: int,
    b3: int,
    b4: int,
    b5: int,
    b6: int,
    b7: int,
    j: int,
)
    requires
        0 <= b0 < 256,
        0 <= b1 < 256,
        0 <= b2 < 256,
        0 <= b3 < 256,
        0 <= b4 < 256,
        0 <= b5 < 256,
        0 <= b6 < 256,
        0 <= b7 < 256,
        1 <= j < 8,
    ensures
        ({
            let u = b0 + 256 * b1 + 65536 * b2 + 16777216 * b3 + 4294967296 * b4 + 1099511627776
                * b5 + 281474976710656 * b6 + 72057594037927936 * b7;
            let d = if j == 1 {
                b1
            } else if j == 2 {
                b2
            } else if j == 3 {
                b3
            } else if j == 4 {
                b4
            } else if j == 5 {
                b5
            } else if j == 6 {
                b6
            } else {
                b7
            };
            u / pow256(j) % 256 == d
        }),
{
    reveal_with_fuel(pow256, 9);
    let u = b0 + 256 * b1 + 65536 * b2 + 16777216 * b3 + 4294967296 * b4 + 1099511627776 * b5
        + 281474976710656 * b6 + 72057594037927936 * b7;
    let p = pow256(j);
    let (low, d, high) = if j == 1 {
        let r = (b0, b1, b2 + 256 * b3 + 65536 * b4 + 16777216 * b5 + 4294967296 * b6 + 1099511627776 * b7);
        assert(p == 256);
        assert(u == r.0 + 256 * (r.1 + 256 * r.2));
        r
    } else if j == 2 {
        let r = (b0 + 256 * b1, b2, b3 + 256 * b4 + 65536 * b5 + 16777216 * b6 + 4294967296 * b7);
        assert(p == 65536);
        assert(u == r.0 + 65536 * (r.1 + 256 * r.2));
        r
    } else if j == 3 {
        let r = (b0 + 256 * b1 + 65536 * b2, b3, b4 + 256 * b5 + 65536 * b6 + 16777216 * b7);
        assert(p == 16777216);
        assert(u == r.0 + 16777216 * (r.1 + 256 * r.2));
        r
    } else if j == 4 {
        let r = (b0 + 256 * b1 + 65536 * b2 + 16777216 * b3, b4, b5 + 256 * b6 + 65536 * b7);
        assert(p == 4294967296);
        assert(u == r.0 + 4294967296 * (r.1 + 256 * r.2));
        r
    } else if j == 5 {
        let r = (b0 + 256 * b1 + 65536 * b2 + 16777216 * b3 + 4294967296 * b4, b5, b6 + 256 * b7);
        assert(p == 1099511627776);
        assert(u == r.0 + 1099511627776 * (r.1 + 256 * r.2));
        r
    } else if j == 6 {
        let r = (
            b0 + 256 * b1 + 65536 * b2 + 16777216 * b3 + 4294967296 * b4 + 1099511627776 * b5,
            b6,
            b7,
        );
        assert(p == 281474976710656);
        assert(u == r.0 + 281474976710656 * (r.1 + 256 * r.2));
        r
    } else {
        let r = (
            b0 + 256 * b1 + 65536 * b2 + 16777216 * b3 + 4294967296 * b4 + 1099511627776 * b5
                + 281474976710656 * b6,
            b7,
            0int,
        );
        assert(p == 72057594037927936);
        assert(u == r.0 + 72057594037927936 * (r.1 + 256 * r.2));
        r
    };
    assert(u == low + p * (d + 256 * high));
    assert(0 <= low < p);
    assert(u / p % 256 == d) by (nonlinear_arith)
        requires
            u == low + p * (d + 256 * high),
            0 <= low < p,
            0 <= d < 256,
            0 <= high,
            p > 0,
    ;
}


proof fn lemma_data_entries_at(b: Seq<u8>, n: nat)
    requires
        data_entries(b, n) is Ok,
    ensures
        forall|i: int|
            0 <= i < n ==> data_entry(b, 10 + 32 * i) == Some(
                #[trigger] data_entries(b, n)->Ok_0[i],
            ),
    decreases n,
{
    if n > 0 {
        lemma_data_entries_at(b, (n - 1) as nat);
        let prev = data_entries(b, (n - 1) as nat)->Ok_0;
        lemma_data_entries_shape(b, (n - 1) as nat);
        let o = entry_offset(n - 1);
        assert(data_entries(b, n)->Ok_0 == prev.push(data_entry(b, o)->Some_0));
        assert forall|i: int| 0 <= i < n implies data_entry(b, 10 + 32 * i) == Some(
            #[trigger] data_entries(b, n)->Ok_0[i],
        ) by {
            if i < n - 1 {
                assert(data_entries(b, n)->Ok_0[i] == prev[i]);
            }
        }
    }
}

/// Where a successfully read image takes each part from: DATA entry `i` is
/// the 32 bytes at `10 + 32 * i`, and instruction `j` the four little-endian
/// `u16`s at `12 + 32 * d + 8 * j`, `d` being the number of entries.
pub proof fn lemma_program_layout(b: Seq<u8>)
    requires
        program(b) is Ok,
        !negative_code_size(b),
    ensures
        ({
            let p = program(b)->Ok_0;
            let base = 12 + 32 * p.2.len();
            &&& forall|i: int|
                0 <= i < p.2.len() ==> data_entry(b, 10 + 32 * i) == Some(#[trigger] p.2[i])
            &&& forall|j: int|
                0 <= j < p.4.len() ==> {
                    let q = base + 8 * j;
                    &&& q + 8 <= b.len()
                    &&& #[trigger] p.4[j].opcode as int == b[q] + 256 * b[q + 1]
                    &&& p.4[j].result_reg as int == b[q + 2] + 256 * b[q + 3]
                    &&& p.4[j].arg_reg1 as int == b[q + 4] + 256 * b[q + 5]
                    &&& p.4[j].arg_reg2 as int == b[q + 6] + 256 * b[q + 7]
                }
        }),
{
    lemma_program_shape(b);
    let s = sections(b)->Ok_0;
    lemma_data_entries_at(b, s.0.data_size as nat);
    let p = program(b)->Ok_0;
    assert(p.2 == data_entries(b, s.0.data_size as nat)->Ok_0);
    assert forall|i: int| 0 <= i < p.2.len() implies data_entry(b, 10 + 32 * i) == Some(
        #[trigger] p.2[i],
    ) by {
        assert(p.2[i] == data_entries(b, s.0.data_size as nat)->Ok_0[i]);
    }
    let o = entry_offset(s.1.data_size as int) + 2;
    let n = s.3.code_size as int;
    assert(p.4 == commands_at(b, o, n as nat));
    assert(b.len() >= o + 8 * n);
    assert forall|j: int| 0 <= j < p.4.len() implies {
        let q = 12 + 32 * p.2.len() + 8 * j;
        &&& q + 8 <= b.len()
        &&& #[trigger] p.4[j].opcode as int == b[q] + 256 * b[q + 1]
        &&& p.4[j].result_reg as int == b[q + 2] + 256 * b[q + 3]
        &&& p.4[j].arg_reg1 as int == b[q + 4] + 256 * b[q + 5]
        &&& p.4[j].arg_reg2 as int == b[q + 6] + 256 * b[q + 7]
    } by {
        assert(p.4[j] == command_at(b, o + 8 * j));
    }
}


/// The other DATA entry types: 2 holds the bits whose little-endian bytes
/// are the first 8 value bytes, 3 holds whether the first value byte is not
/// zero, 5 holds the character whose code the first 4 value bytes give in
/// little-endian order, or `?` where that code is no character; any type
/// byte other than 1 to 5 makes the entry unreadable.
pub proof fn lemma_other_entries(b: Seq<u8>, o: int)
    requires
        0 <= o,
        o + 32 <= b.len(),
    ensures
        b[o + 2] == 2 ==> ({
            &&& data_entry(b, o) is Some
            &&& data_entry(b, o)->Some_0.value matches ValueModel::Float(x)
            &&& forall|j: int| 0 <= j < 8 ==> #[trigger] byte_of(x as int, j) == b[o + 3 + j]
        }),
        b[o + 2] == 3 ==> data_entry(b, o) is Some && data_entry(b, o)->Some_0.value
            == ValueModel::Bool(b[o + 3] != 0),
        b[o + 2] == 5 ==> ({
            let code = b[o + 3] + 256 * b[o + 4] + 65536 * b[o + 5] + 16777216 * b[o + 6];
            &&& data_entry(b, o) is Some
            &&& data_entry(b, o)->Some_0.value matches ValueModel::Char(ch)
            &&& if code < 0xd800 || (0xe000 <= code <= 0x10ffff) {
                ch as int == code
            } else {
                ch == '?'
            }
        }),
        !(1 <= b[o + 2] <= 5) ==> data_entry(b, o) is None,
        1 <= b[o + 2] <= 5 ==> data_entry(b, o)->Some_0.data_type == b[o + 2] as int
            && data_entry(b, o)->Some_0.registr as int == b[o] + 256 * b[o + 1],
{
    lemma_le_u64_bytes(b, o + 3);
    let u = le_u64(b, o + 3);
    assert((u as u64) as int == u);
    let code = le_u32(b, o + 3);
    assert(0 <= code < 0x100000000);
    assert((code as u32) as int == code);
}

/// The headers, by their bytes: a readable image starts with the bytes
/// 0x02 0x80, has 0x01 0x80 at offset 8 and 0xff 0x7f after the DATA entries;
/// its counts are the little-endian `u16` at offset 2 and the little-endian
/// `i32` at offset 4. Wrong magic bytes give the error of that magic.
pub proof fn lemma_header_bytes(b: Seq<u8>)
    ensures
        program(b) is Ok ==> ({
            let p = program(b)->Ok_0;
            let d = b[2] + 256 * b[3];
            let u = b[4] + 256 * b[5] + 65536 * b[6] + 16777216 * b[7];
            &&& b[0] == 0x02 && b[1] == 0x80
            &&& b[8] == 0x01 && b[9] == 0x80
            &&& b[10 + 32 * d] == 0xff && b[11 + 32 * d] == 0x7f
            &&& p.0.data_size == d
            &&& p.0.code_size == (if u < 0x80000000 {
                u
            } else {
                u - 0x100000000
            })
        }),
        b.len() >= 8 && !(b[0] == 0x02 && b[1] == 0x80) ==> program(b) == Err::<
            (ProgHeader, DataHeader, Seq<DataCommandModel>, CodeHeader, Seq<Command>),
            ParseError,
        >(ParseError::InvalidProgramMagic),
        b.len() >= 10 && b[0] == 0x02 && b[1] == 0x80 && !(b[8] == 0x01 && b[9] == 0x80)
            ==> program(b) == Err::<
            (ProgHeader, DataHeader, Seq<DataCommandModel>, CodeHeader, Seq<Command>),
            ParseError,
        >(ParseError::InvalidDataMagic),
{
    if b.len() >= 8 {
        assert(le_i16(b, 0) == PROGRAM_MAGIC <==> (b[0] == 0x02 && b[1] == 0x80));
    }
    if b.len() >= 10 {
        assert(le_i16(b, 8) == DATA_SECTION_MAGIC <==> (b[8] == 0x01 && b[9] == 0x80));
    }
    if program(b) is Ok {
        let s = sections(b)->Ok_0;
        let o = entry_offset(s.0.data_size as int);
        assert(le_i16(b, o) == CODE_SECTION_MAGIC <==> (b[o] == 0xff && b[o + 1] == 0x7f));
        assert(le_u32(b, 4) < 0x100000000);
    }
}

} // verus!
