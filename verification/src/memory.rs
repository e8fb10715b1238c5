use vstd::prelude::*;

use vstd::utf8::is_ascii_chars;

use crate::text::{
    ascii_lowercase, is_whitespace, lemma_decimal_round_trip, lemma_trim_unchanged,
    chars_equal, i64_to_decimal, int_decimal, parse_i64, parse_i64_chars, push_char,
    str_chars, string_from_chars, to_lowercase, trim, trim_chars, unicode_lowercase,
};

verus! {

/// A value held in, or bound for, a register. A float is held as the bit
/// pattern of an IEEE 754 double (`f64::to_bits`).
pub enum Value {
    Int(i64),
    Float(u64),
    Bool(bool),
    String(String),
    Char(char),
    Null,
}

/// The mathematical model of a [`Value`]: a string is its characters.
pub enum ValueModel {
    Int(i64),
    Float(u64),
    Bool(bool),
    String(Seq<char>),
    Char(char),
    Null,
}

impl View for Value {
    type V = ValueModel;

    open spec fn view(&self) -> ValueModel {
        match self {
            Value::Int(i) => ValueModel::Int(*i),
            Value::Float(f) => ValueModel::Float(*f),
            Value::Bool(b) => ValueModel::Bool(*b),
            Value::String(s) => ValueModel::String(s@),
            Value::Char(c) => ValueModel::Char(*c),
            Value::Null => ValueModel::Null,
        }
    }
}

/// The five register banks.
#[derive(Debug, Clone, Copy, PartialEq, Eq, Structural)]
pub enum RegisterType {
    Int,
    Float,
    Bool,
    String,
    Char,
}

/// Whether `v` is a value of the bank `t`.
pub open spec fn value_fits(t: RegisterType, v: ValueModel) -> bool {
    match t {
        RegisterType::Int => v is Int,
        RegisterType::Float => v is Float,
        RegisterType::Bool => v is Bool,
        RegisterType::String => v is String,
        RegisterType::Char => v is Char,
    }
}

/// The register file: one vector per bank, indexed by register number.
pub struct Registers {
    pub int_registr: Vec<i64>,
    pub float_registr: Vec<u64>,
    pub string_registr: Vec<String>,
    pub bool_registr: Vec<bool>,
    pub char_registr: Vec<char>,
}

/// The mathematical model of [`Registers`].
pub struct RegistersModel {
    pub ints: Seq<i64>,
    pub floats: Seq<u64>,
    pub strings: Seq<Seq<char>>,
    pub bools: Seq<bool>,
    pub chars: Seq<char>,
}

/// `s` resized to `n` elements as `Vec::resize` does: cut, or padded with `fill`.
pub open spec fn resized<T>(s: Seq<T>, n: nat, fill: T) -> Seq<T> {
    if n <= s.len() {
        s.take(n as int)
    } else {
        s + Seq::new((n - s.len()) as nat, |_i: int| fill)
    }
}

impl RegistersModel {
    /// All five banks have the same number of registers.
    pub open spec fn wf(self) -> bool {
        &&& self.floats.len() == self.ints.len()
        &&& self.strings.len() == self.ints.len()
        &&& self.bools.len() == self.ints.len()
        &&& self.chars.len() == self.ints.len()
    }

    /// Number of registers in the bank `t`.
    pub open spec fn bank_len(self, t: RegisterType) -> nat {
        match t {
            RegisterType::Int => self.ints.len(),
            RegisterType::Float => self.floats.len(),
            RegisterType::Bool => self.bools.len(),
            RegisterType::String => self.strings.len(),
            RegisterType::Char => self.chars.len(),
        }
    }

    /// Register `i` of bank `t` can be read: the index is below the length of
    /// the integer bank (which stands for the file's size) and of bank `t`.
    pub open spec fn readable(self, t: RegisterType, i: int) -> bool {
        0 <= i < self.ints.len() && i < self.bank_len(t)
    }

    /// The value in register `i` of bank `t`.
    pub open spec fn read(self, t: RegisterType, i: int) -> ValueModel {
        match t {
            RegisterType::Int => ValueModel::Int(self.ints[i]),
            RegisterType::Float => ValueModel::Float(self.floats[i]),
            RegisterType::Bool => ValueModel::Bool(self.bools[i]),
            RegisterType::String => ValueModel::String(self.strings[i]),
            RegisterType::Char => ValueModel::Char(self.chars[i]),
        }
    }

    /// The file made large enough for index `i`: when `i` is past the
    /// integer bank, every bank is resized to `i + 1` registers, new ones
    /// holding 0, 0.0, the empty string, `false` and `'\0'`.
    pub open spec fn grown(self, i: int) -> RegistersModel {
        if i >= self.ints.len() {
            let n = (i + 1) as nat;
            RegistersModel {
                ints: resized(self.ints, n, 0i64),
                floats: resized(self.floats, n, 0u64),
                strings: resized(self.strings, n, Seq::<char>::empty()),
                bools: resized(self.bools, n, false),
                chars: resized(self.chars, n, '\0'),
            }
        } else {
            self
        }
    }

    /// The file after `v` is written to register `i` of its own bank.
    pub open spec fn write(self, i: int, v: ValueModel) -> RegistersModel {
        let g = self.grown(i);
        match v {
            ValueModel::Int(x) => RegistersModel { ints: g.ints.update(i, x), ..g },
            ValueModel::Float(x) => RegistersModel { floats: g.floats.update(i, x), ..g },
            ValueModel::Bool(x) => RegistersModel { bools: g.bools.update(i, x), ..g },
            ValueModel::String(x) => RegistersModel { strings: g.strings.update(i, x), ..g },
            ValueModel::Char(x) => RegistersModel { chars: g.chars.update(i, x), ..g },
            ValueModel::Null => g,
        }
    }
}

impl View for Registers {
    type V = RegistersModel;

    open spec fn view(&self) -> RegistersModel {
        RegistersModel {
            ints: self.int_registr@,
            floats: self.float_registr@,
            strings: self.string_registr@.map_values(|s: String| s@),
            bools: self.bool_registr@,
            chars: self.char_registr@,
        }
    }
}

/// A register file with no registers.
pub open spec fn empty_registers() -> RegistersModel {
    RegistersModel {
        ints: Seq::empty(),
        floats: Seq::empty(),
        strings: Seq::empty(),
        bools: Seq::empty(),
        chars: Seq::empty(),
    }
}

/// An empty register file.
pub fn init() -> (r: Registers)
    ensures
        r@ == empty_registers(),
{
    let r = Registers {
        int_registr: Vec::new(),
        float_registr: Vec::new(),
        string_registr: Vec::new(),
        bool_registr: Vec::new(),
        char_registr: Vec::new(),
    };
    assert(r@.strings =~= Seq::<Seq<char>>::empty());
    r
}

/// Reads register `index` of bank `reg_type`.
pub fn get_registr(registers: &Registers, reg_type: RegisterType, index: usize) -> (r: Value)
    requires
        registers@.readable(reg_type, index as int),
    ensures
        r@ == registers@.read(reg_type, index as int),
{
    match reg_type {
        RegisterType::Int => Value::Int(registers.int_registr[index]),
        RegisterType::Float => Value::Float(registers.float_registr[index]),
        RegisterType::Bool => Value::Bool(registers.bool_registr[index]),
        RegisterType::String => Value::String(registers.string_registr[index].clone()),
        RegisterType::Char => Value::Char(registers.char_registr[index]),
    }
}


/// Writes `value` to register `index` of bank `reg_type`. When `index` is past
/// the integer bank, every bank is first resized to `index + 1` registers.
/// The value must belong to the bank, and the bank must already hold `index`
/// when the file is not resized.
pub fn set_registr(registers: &mut Registers, reg_type: RegisterType, index: usize, value: Value)
    requires
        value_fits(reg_type, value@),
        index >= old(registers)@.ints.len() ==> index < usize::MAX,
        index < old(registers)@.ints.len() ==> index < old(registers)@.bank_len(reg_type),
    ensures
        final(registers)@ == old(registers)@.write(index as int, value@),
{
    let ghost before = registers@;
    if index >= registers.int_registr.len() {
        let new_len = index + 1;
        registers.int_registr.resize(new_len, 0);
        registers.float_registr.resize(new_len, 0);
        registers.bool_registr.resize(new_len, false);
        registers.string_registr.resize(new_len, String::new());
        registers.char_registr.resize(new_len, '\0');
        proof {
            let g = before.grown(index as int);
            assert(registers.int_registr@ =~= g.ints);
            assert(registers.float_registr@ =~= g.floats);
            assert(registers.bool_registr@ =~= g.bools);
            assert(registers.char_registr@ =~= g.chars);
            assert(registers@.strings =~= g.strings);
        }
    }
    assert(registers@ == before.grown(index as int));
    match value {
        Value::Int(v) => {
            registers.int_registr.set(index, v);
        },
        Value::Float(v) => {
            registers.float_registr.set(index, v);
        },
        Value::Bool(v) => {
            registers.bool_registr.set(index, v);
        },
        Value::String(v) => {
            registers.string_registr.set(index, v);
            assert(registers@.strings =~= before.grown(index as int).strings.update(
                index as int,
                value@->String_0,
            ));
        },
        Value::Char(v) => {
            registers.char_registr.set(index, v);
        },
        Value::Null => {},
    }
}


/// A read of the register just written gives back the value written.
pub proof fn lemma_read_after_write(r: RegistersModel, t: RegisterType, i: int, v: ValueModel)
    requires
        0 <= i,
        value_fits(t, v),
        i < r.ints.len() ==> i < r.bank_len(t),
    ensures
        r.write(i, v).readable(t, i),
        r.write(i, v).read(t, i) == v,
{
}

/// A write leaves every other readable register as it was.
pub proof fn lemma_write_frame(
    r: RegistersModel,
    t: RegisterType,
    i: int,
    v: ValueModel,
    t2: RegisterType,
    j: int,
)
    requires
        0 <= i,
        value_fits(t, v),
        i < r.ints.len() ==> i < r.bank_len(t),
        r.readable(t2, j),
        t2 != t || j != i,
    ensures
        r.write(i, v).readable(t2, j),
        r.write(i, v).read(t2, j) == r.read(t2, j),
{
}

/// A write to a file whose banks have one length keeps them at one length,
/// which is the old one or `i + 1`, whichever is larger.
pub proof fn lemma_write_keeps_wf(r: RegistersModel, i: int, v: ValueModel)
    requires
        0 <= i,
        r.wf(),
    ensures
        r.write(i, v).wf(),
        r.write(i, v).ints.len() == if i < r.ints.len() {
            r.ints.len() as int
        } else {
            i + 1
        },
{
}


/// The value a register of bank `t` holds when the file grows to include it.
pub open spec fn default_value(t: RegisterType) -> ValueModel {
    match t {
        RegisterType::Int => ValueModel::Int(0),
        RegisterType::Float => ValueModel::Float(0),
        RegisterType::Bool => ValueModel::Bool(false),
        RegisterType::String => ValueModel::String(Seq::empty()),
        RegisterType::Char => ValueModel::Char('\0'),
    }
}

/// A register that a write brings into the file, other than the one written,
/// holds its bank's default value.
pub proof fn lemma_write_new_register(
    r: RegistersModel,
    t: RegisterType,
    i: int,
    v: ValueModel,
    t2: RegisterType,
    j: int,
)
    requires
        r.wf(),
        0 <= i,
        value_fits(t, v),
        r.ints.len() <= j <= i,
        t2 != t || j != i,
    ensures
        r.write(i, v).readable(t2, j),
        r.write(i, v).read(t2, j) == default_value(t2),
{
}

/// Writing the same value twice to a register is writing it once.
pub proof fn lemma_write_twice(r: RegistersModel, t: RegisterType, i: int, v: ValueModel)
    requires
        r.wf(),
        0 <= i,
        value_fits(t, v),
    ensures
        r.write(i, v).write(i, v) == r.write(i, v),
{
    let w = r.write(i, v);
    assert(w.write(i, v).ints =~= w.ints);
    assert(w.write(i, v).floats =~= w.floats);
    assert(w.write(i, v).strings =~= w.strings);
    assert(w.write(i, v).bools =~= w.bools);
    assert(w.write(i, v).chars =~= w.chars);
}

/// Of two writes to one register, the last one wins.
pub proof fn lemma_last_write_wins(
    r: RegistersModel,
    t: RegisterType,
    i: int,
    v1: ValueModel,
    v2: ValueModel,
)
    requires
        r.wf(),
        0 <= i,
        value_fits(t, v1),
        value_fits(t, v2),
    ensures
        r.write(i, v1).write(i, v2) == r.write(i, v2),
{
    let a = r.write(i, v1).write(i, v2);
    let b = r.write(i, v2);
    assert(a.ints =~= b.ints);
    assert(a.floats =~= b.floats);
    assert(a.strings =~= b.strings);
    assert(a.bools =~= b.bools);
    assert(a.chars =~= b.chars);
}

/// What every register of the file holds after a write: the value written
/// in its own register, the old value in every other register that was in
/// the file, and its bank's default in every register the write added.
pub proof fn lemma_read_written(
    r: RegistersModel,
    t: RegisterType,
    i: int,
    v: ValueModel,
    t2: RegisterType,
    j: int,
)
    requires
        r.wf(),
        0 <= i,
        0 <= j < r.write(i, v).ints.len(),
        value_fits(t, v),
    ensures
        r.write(i, v).wf(),
        r.write(i, v).readable(t2, j),
        r.write(i, v).read(t2, j) == if t2 == t && j == i {
            v
        } else if j < r.ints.len() {
            r.read(t2, j)
        } else {
            default_value(t2)
        },
{
    lemma_write_keeps_wf(r, i, v);
    if t2 == t && j == i {
        lemma_read_after_write(r, t, i, v);
    } else if j < r.ints.len() {
        lemma_write_frame(r, t, i, v, t2, j);
    } else {
        lemma_write_new_register(r, t, i, v, t2, j);
    }
}

/// Two files with banks of one length that read alike are equal.
proof fn lemma_same_reads(a: RegistersModel, b: RegistersModel)
    requires
        a.wf(),
        b.wf(),
        a.ints.len() == b.ints.len(),
        forall|t: RegisterType, j: int|
            0 <= j < a.ints.len() ==> #[trigger] a.read(t, j) == b.read(t, j),
    ensures
        a == b,
{
    assert forall|j: int| 0 <= j < a.ints.len() implies a.ints[j] == b.ints[j] && a.floats[j]
        == b.floats[j] && a.strings[j] == b.strings[j] && a.bools[j] == b.bools[j] && a.chars[j]
        == b.chars[j] by {
        assert(a.read(RegisterType::Int, j) == b.read(RegisterType::Int, j));
        assert(a.read(RegisterType::Float, j) == b.read(RegisterType::Float, j));
        assert(a.read(RegisterType::String, j) == b.read(RegisterType::String, j));
        assert(a.read(RegisterType::Bool, j) == b.read(RegisterType::Bool, j));
        assert(a.read(RegisterType::Char, j) == b.read(RegisterType::Char, j));
    }
    assert(a.ints =~= b.ints);
    assert(a.floats =~= b.floats);
    assert(a.strings =~= b.strings);
    assert(a.bools =~= b.bools);
    assert(a.chars =~= b.chars);
}

/// Writes to two different registers (another bank or another index) give
/// the same file in either order.
pub proof fn lemma_writes_commute(
    r: RegistersModel,
    t1: RegisterType,
    i1: int,
    v1: ValueModel,
    t2: RegisterType,
    i2: int,
    v2: ValueModel,
)
    requires
        r.wf(),
        0 <= i1,
        0 <= i2,
        value_fits(t1, v1),
        value_fits(t2, v2),
        t1 != t2 || i1 != i2,
    ensures
        r.write(i1, v1).write(i2, v2) == r.write(i2, v2).write(i1, v1),
{
    let r1 = r.write(i1, v1);
    let r2 = r.write(i2, v2);
    let a = r1.write(i2, v2);
    let b = r2.write(i1, v1);
    lemma_write_keeps_wf(r, i1, v1);
    lemma_write_keeps_wf(r, i2, v2);
    lemma_write_keeps_wf(r1, i2, v2);
    lemma_write_keeps_wf(r2, i1, v1);
    assert forall|t: RegisterType, j: int| 0 <= j < a.ints.len() implies #[trigger] a.read(t, j)
        == b.read(t, j) by {
        lemma_read_written(r1, t2, i2, v2, t, j);
        lemma_read_written(r2, t1, i1, v1, t, j);
        if j < r1.ints.len() {
            lemma_read_written(r, t1, i1, v1, t, j);
        }
        if j < r2.ints.len() {
            lemma_read_written(r, t2, i2, v2, t, j);
        }
    }
    lemma_same_reads(a, b);
}

/// The text `value_to_string` gives for a value other than a float.
pub open spec fn display(v: ValueModel) -> Seq<char> {
    match v {
        ValueModel::Int(i) => int_decimal(i as int),
        ValueModel::Bool(b) => if b {
            "true"@
        } else {
            "false"@
        },
        ValueModel::Char(c) => seq![c],
        ValueModel::String(s) => s,
        ValueModel::Null => "null"@,
        ValueModel::Float(_) => Seq::empty(),
    }
}

/// The text of a value, as `to_string` writes it. Floats are formatted
/// outside this library (their text is floating-point formatting), so a
/// float is not accepted here.
pub fn value_to_string(v: &Value) -> (s: String)
    requires
        !(v@ is Float),
    ensures
        s@ == display(v@),
{
    match v {
        Value::Int(i) => i64_to_decimal(*i),
        Value::Bool(b) => if *b {
            String::from_str("true")
        } else {
            String::from_str("false")
        },
        Value::Char(c) => {
            let mut s = String::new();
            push_char(&mut s, *c);
            assert(s@ =~= seq![*c]);
            s
        },
        Value::String(s) => s.clone(),
        Value::Null => String::from_str("null"),
        Value::Float(_) => String::new(),
    }
}

/// The message of a failed conversion of `s` to the type named `what`.
pub open spec fn cannot_parse(s: Seq<char>, what: Seq<char>) -> Seq<char> {
    "Cannot parse '"@ + s + "' as "@ + what
}

/// What `parse_string_to_value` gives for the text `s` and the bank `t`
/// (other than the float bank): the value, or the error message.
pub open spec fn parsed(s: Seq<char>, t: RegisterType) -> Result<ValueModel, Seq<char>> {
    match t {
        RegisterType::Int => match parse_i64(trim(s)) {
            Some(i) => Ok(ValueModel::Int(i)),
            None => Err(cannot_parse(s, "integer"@)),
        },
        RegisterType::Bool => {
            let t = trim(s);
            let l = if is_ascii_chars(t) {
                ascii_lowercase(t)
            } else {
                unicode_lowercase(t)
            };
            if l == "true"@ || l == "1"@ {
                Ok(ValueModel::Bool(true))
            } else if l == "false"@ || l == "0"@ {
                Ok(ValueModel::Bool(false))
            } else {
                Err(cannot_parse(s, "boolean (expected true/false/1/0)"@))
            }
        },
        RegisterType::Char => if trim(s).len() == 0 {
            Err("Empty string cannot be parsed as char"@)
        } else {
            Ok(ValueModel::Char(trim(s)[0]))
        },
        RegisterType::String => Ok(ValueModel::String(s)),
        RegisterType::Float => Err(Seq::empty()),
    }
}

fn cannot_parse_message(s: &str, what: &str) -> (m: String)
    ensures
        m@ == cannot_parse(s@, what@),
{
    let mut m = String::from_str("Cannot parse '");
    m.append(s);
    m.append("' as ");
    m.append(what);
    m
}

/// Converts the text `s` to a value of the bank `target_type`: an integer or
/// a character after trimming whitespace, a boolean from `true`/`false`/`1`/`0`
/// in any case, a string as it stands. Floats are parsed outside this library
/// (their text is floating-point parsing), so the float bank is not accepted here.
pub fn parse_string_to_value(s: &str, target_type: RegisterType) -> (r: Result<Value, String>)
    requires
        target_type != RegisterType::Float,
    ensures
        match r {
            Ok(v) => parsed(s@, target_type) == Ok::<ValueModel, Seq<char>>(v@),
            Err(e) => parsed(s@, target_type) == Err::<ValueModel, Seq<char>>(e@),
        },
{
    match target_type {
        RegisterType::Int => {
            let t = trim_chars(s);
            match parse_i64_chars(&t) {
                Some(i) => Ok(Value::Int(i)),
                None => Err(cannot_parse_message(s, "integer")),
            }
        },
        RegisterType::Bool => {
            let t = trim_chars(s);
            let ts = string_from_chars(&t, 0, t.len());
            assert(ts@ =~= t@);
            let lower = to_lowercase(ts.as_str());
            let l = str_chars(lower.as_str());
            if chars_equal(&l, "true") || chars_equal(&l, "1") {
                Ok(Value::Bool(true))
            } else if chars_equal(&l, "false") || chars_equal(&l, "0") {
                Ok(Value::Bool(false))
            } else {
                Err(cannot_parse_message(s, "boolean (expected true/false/1/0)"))
            }
        },
        RegisterType::Char => {
            let t = trim_chars(s);
            if t.len() == 0 {
                Err(String::from_str("Empty string cannot be parsed as char"))
            } else {
                Ok(Value::Char(t[0]))
            }
        },
        RegisterType::String => Ok(Value::String(String::from_str(s))),
        RegisterType::Float => Err(String::new()),
    }
}

/// What `read_line_from_stdin` keeps of a line it read: a final `\n` is
/// dropped, and then a `\r` before it.
pub open spec fn without_line_ending(s: Seq<char>) -> Seq<char> {
    if s.len() > 0 && s.last() == '\n' {
        let t = s.drop_last();
        if t.len() > 0 && t.last() == '\r' {
            t.drop_last()
        } else {
            t
        }
    } else {
        s
    }
}

/// Drops the line ending from a line read from input.
pub fn strip_line_ending(input: String) -> (r: String)
    ensures
        r@ == without_line_ending(input@),
{
    let v = str_chars(input.as_str());
    let mut end = v.len();
    if end > 0 && v[end - 1] == '\n' {
        end -= 1;
        if end > 0 && v[end - 1] == '\r' {
            end -= 1;
        }
    }
    let r = string_from_chars(&v, 0, end);
    assert(r@ =~= without_line_ending(input@));
    r
}


/// A successful conversion gives a value of the bank asked for.
pub proof fn lemma_parsed_fits(s: Seq<char>, t: RegisterType)
    requires
        t != RegisterType::Float,
        parsed(s, t) is Ok,
    ensures
        value_fits(t, parsed(s, t)->Ok_0),
{
}

/// The text of an integer converts back to that integer.
pub proof fn lemma_int_text_round_trip(i: i64)
    ensures
        parsed(display(ValueModel::Int(i)), RegisterType::Int) == Ok::<ValueModel, Seq<char>>(
            ValueModel::Int(i),
        ),
{
    lemma_decimal_round_trip(i);
}

/// The text of a boolean converts back to that boolean.
pub proof fn lemma_bool_text_round_trip(b: bool)
    ensures
        parsed(display(ValueModel::Bool(b)), RegisterType::Bool) == Ok::<ValueModel, Seq<char>>(
            ValueModel::Bool(b),
        ),
{
    reveal_strlit("true");
    reveal_strlit("false");
    let t = display(ValueModel::Bool(b));
    assert(!is_whitespace(t[0]));
    assert(!is_whitespace(t.last()));
    lemma_trim_unchanged(t);
    reveal_strlit("1");
    reveal_strlit("0");
    assert(ascii_lowercase(t) =~= t);
    assert(trim(t) == t);
    assert(is_ascii_chars(t));
    if b {
        assert(t.len() == 4);
    } else {
        assert(t.len() == 5);
        assert(t != "true"@);
        assert(t != "1"@);
    }
}

/// The text of a character other than whitespace converts back to it.
pub proof fn lemma_char_text_round_trip(c: char)
    requires
        !is_whitespace(c),
    ensures
        parsed(display(ValueModel::Char(c)), RegisterType::Char) == Ok::<ValueModel, Seq<char>>(
            ValueModel::Char(c),
        ),
{
    lemma_trim_unchanged(seq![c]);
}

/// A string converts to itself, and its text is itself.
pub proof fn lemma_string_text_round_trip(s: Seq<char>)
    ensures
        parsed(display(ValueModel::String(s)), RegisterType::String) == Ok::<
            ValueModel,
            Seq<char>,
        >(ValueModel::String(s)),
{
}

} // verus!
