use vstd::prelude::*;

use crate::binary::{
    data_type_bank, entries_view, lemma_program_shape, negative_code_size, program, well_typed,
    Command, DataCommand, DataCommandModel,
};
use crate::memory::{
    display, empty_registers, lemma_write_keeps_wf, parse_string_to_value, parsed, set_registr,
    value_fits, value_to_string, RegisterType, Registers, RegistersModel, Value, ValueModel,
};
use crate::text::{hex4, i64_to_decimal, int_decimal, nat_decimal, push_hex4, usize_to_decimal};

verus! {

/// Instruction codes.
pub const ADD_I: u16 = 0x0001;

pub const SUB_I: u16 = 0x0002;

pub const MUL_I: u16 = 0x0003;

pub const DIV_I: u16 = 0x0004;

pub const ADD_F: u16 = 0x0005;

pub const SUB_F: u16 = 0x0006;

pub const MUL_F: u16 = 0x0007;

pub const DIV_F: u16 = 0x0008;

pub const IF_I: u16 = 0x0010;

pub const IF_FLOAT: u16 = 0x0011;

pub const IF_CHAR: u16 = 0x0012;

pub const IF_STRING: u16 = 0x0013;

pub const STR_TO_INT: u16 = 0x0034;

pub const INT_TO_STR: u16 = 0x0035;

pub const STR_TO_FLOAT: u16 = 0x0036;

pub const FLOAT_TO_STR: u16 = 0x0037;

pub const STR_TO_BOOL: u16 = 0x0038;

pub const BOOL_TO_STR: u16 = 0x0039;

pub const STR_TO_CHAR: u16 = 0x003A;

pub const CHAR_TO_STR: u16 = 0x003B;

pub const SET_OUTPUT_TO_FILE: u16 = 0x0051;

pub const PRINT_STRING: u16 = 0x0052;

pub const JMP: u16 = 0x0060;

pub const JMP_IF_TRUE: u16 = 0x0061;

pub const JMP_IF_FALSE: u16 = 0x0062;

pub const HALT: u16 = 0x0063;

pub const READ_STRING: u16 = 0x0070;

/// A floating-point operation that the host carries out.
#[derive(Debug, Clone, Copy, PartialEq, Eq, Structural)]
pub enum FloatOp {
    Add,
    Sub,
    Mul,
    Div,
}

/// What the host is to do after a step.
pub enum Action {
    /// The instruction is done; step again.
    Continue,
    /// The program is over: `HALT`, or the instruction pointer left the code.
    Halt,
    /// Write the text and a line break to the current output.
    Print(String),
    /// Send further output to the file `name`; `instruction` is the index
    /// of the instruction, for the message should the file not open.
    OpenOutput { name: String, instruction: usize },
    /// Read a line of input, drop its line ending, and store it in string
    /// register `reg`.
    ReadLine { reg: u16 },
    /// Apply `op` to the doubles with bits `lhs` and `rhs`; store the result
    /// in float register `reg`.
    FloatArith { op: FloatOp, lhs: u64, rhs: u64, reg: u16 },
    /// Parse `text` as a double for float register `reg`; `instruction` is
    /// the index of the instruction, for the message should it not parse.
    ParseFloat { text: String, reg: u16, instruction: usize },
    /// Format the double with bits `bits` and store the text in string
    /// register `reg`.
    FormatFloat { bits: u64, reg: u16 },
    /// The program fails with this message.
    Fault(String),
}

/// The mathematical model of an [`Action`].
pub enum ActionModel {
    Continue,
    Halt,
    Print(Seq<char>),
    OpenOutput { name: Seq<char>, instruction: usize },
    ReadLine { reg: u16 },
    FloatArith { op: FloatOp, lhs: u64, rhs: u64, reg: u16 },
    ParseFloat { text: Seq<char>, reg: u16, instruction: usize },
    FormatFloat { bits: u64, reg: u16 },
    Fault(Seq<char>),
}

impl View for Action {
    type V = ActionModel;

    open spec fn view(&self) -> ActionModel {
        match self {
            Action::Continue => ActionModel::Continue,
            Action::Halt => ActionModel::Halt,
            Action::Print(s) => ActionModel::Print(s@),
            Action::OpenOutput { name, instruction } => ActionModel::OpenOutput {
                name: name@,
                instruction: *instruction,
            },
            Action::ReadLine { reg } => ActionModel::ReadLine { reg: *reg },
            Action::FloatArith { op, lhs, rhs, reg } => ActionModel::FloatArith {
                op: *op,
                lhs: *lhs,
                rhs: *rhs,
                reg: *reg,
            },
            Action::ParseFloat { text, reg, instruction } => ActionModel::ParseFloat {
                text: text@,
                reg: *reg,
                instruction: *instruction,
            },
            Action::FormatFloat { bits, reg } => ActionModel::FormatFloat { bits: *bits, reg: *reg },
            Action::Fault(s) => ActionModel::Fault(s@),
        }
    }
}

/// The message of a read past the register file.
pub open spec fn out_of_bounds(index: int, len: int) -> Seq<char> {
    "Register index "@ + nat_decimal(index as nat) + " out of bounds (max "@ + nat_decimal(
        len as nat,
    ) + ")"@
}

/// `x / y` rounded toward zero, as Rust divides integers.
pub open spec fn trunc_div(x: int, y: int) -> int {
    let q = (if x < 0 {
        -x
    } else {
        x
    }) / (if y < 0 {
        -y
    } else {
        y
    });
    if (x < 0) != (y < 0) {
        -q
    } else {
        q
    }
}

pub open spec fn in_i64(x: int) -> bool {
    i64::MIN <= x <= i64::MAX
}

/// Integer arithmetic of the instructions 1 to 4, with the message of the
/// failure where the result is not an `i64` or the divisor is zero.
pub open spec fn int_arith(opcode: u16, x: i64, y: i64) -> Result<i64, Seq<char>> {
    if opcode == ADD_I {
        if in_i64(x + y) {
            Ok((x + y) as i64)
        } else {
            Err("attempt to add with overflow"@)
        }
    } else if opcode == SUB_I {
        if in_i64(x - y) {
            Ok((x - y) as i64)
        } else {
            Err("attempt to subtract with overflow"@)
        }
    } else if opcode == MUL_I {
        if in_i64(x * y) {
            Ok((x * y) as i64)
        } else {
            Err("attempt to multiply with overflow"@)
        }
    } else {
        if y == 0 {
            Err("attempt to divide by zero"@)
        } else if x == i64::MIN && y == -1 {
            Err("attempt to divide with overflow"@)
        } else {
            Ok(trunc_div(x as int, y as int) as i64)
        }
    }
}

/// The double with bits `x` is a NaN: all exponent bits set, mantissa not zero.
pub open spec fn is_nan_bits(x: u64) -> bool {
    (x / 0x10000000000000) % 2048 == 2047 && x % 0x10000000000000 != 0
}

/// The double with bits `x` is +0.0 or -0.0.
pub open spec fn is_zero_bits(x: u64) -> bool {
    x % 0x8000000000000000 == 0
}

/// IEEE 754 equality of the doubles with bits `x` and `y`: no NaN is equal to
/// anything, and the two zeros are equal.
pub open spec fn float_bits_eq(x: u64, y: u64) -> bool {
    !is_nan_bits(x) && !is_nan_bits(y) && (x == y || (is_zero_bits(x) && is_zero_bits(y)))
}

/// The signed jump distance held in an operand.
pub open spec fn jump_offset(a: u16) -> int {
    if a >= 32768 {
        a - 65536
    } else {
        a as int
    }
}

/// Where a jump by the distance in operand `a` from `ip` lands.
pub open spec fn jump_target(ip: usize, a: u16) -> usize {
    (ip + jump_offset(a)) as usize
}

/// The message of a failed text conversion at instruction `ip`.
pub open spec fn at_instruction(e: Seq<char>, ip: usize) -> Seq<char> {
    e + " at instruction "@ + nat_decimal(ip as nat)
}

/// The message of an unknown instruction code.
pub open spec fn unknown_opcode(op: u16) -> Seq<char> {
    "Unknown opcode: 0x"@ + hex4(op)
}

/// The outcome of a conversion from string register `a` into bank `t`.
pub open spec fn convert(r: RegistersModel, ip: usize, c: Command, t: RegisterType) -> (
    RegistersModel,
    usize,
    ActionModel,
) {
    let s = r.strings[c.arg_reg1 as int];
    match parsed(s, t) {
        Ok(v) => (r.write(c.result_reg as int, v), (ip + 1) as usize, ActionModel::Continue),
        Err(e) => (r, ip, ActionModel::Fault(at_instruction(e, ip))),
    }
}

/// What one instruction does to the register file and the instruction
/// pointer, and what it asks of the host. A fault leaves both as they were;
/// so does `HALT`. Registers are read in operand order, and a read past the
/// file faults.
pub open spec fn execute(r: RegistersModel, ip: usize, c: Command) -> (
    RegistersModel,
    usize,
    ActionModel,
) {
    let op = c.opcode;
    let a1 = c.arg_reg1 as int;
    let a2 = c.arg_reg2 as int;
    let res = c.result_reg as int;
    let n = r.ints.len() as int;
    let next = (ip + 1) as usize;
    let two_reads = (ADD_I <= op <= DIV_F) || (IF_I <= op <= IF_STRING);
    let one_read = (STR_TO_INT <= op <= CHAR_TO_STR) || op
        == SET_OUTPUT_TO_FILE || op == PRINT_STRING || op == JMP_IF_TRUE || op == JMP_IF_FALSE;
    if (two_reads || one_read) && a1 >= n {
        (r, ip, ActionModel::Fault(out_of_bounds(a1, n)))
    } else if two_reads && a2 >= n {
        (r, ip, ActionModel::Fault(out_of_bounds(a2, n)))
    } else if ADD_I <= op <= DIV_I {
        match int_arith(op, r.ints[a1], r.ints[a2]) {
            Ok(v) => (r.write(res, ValueModel::Int(v)), next, ActionModel::Continue),
            Err(e) => (r, ip, ActionModel::Fault(e)),
        }
    } else if ADD_F <= op <= DIV_F {
        let f = if op == ADD_F {
            FloatOp::Add
        } else if op == SUB_F {
            FloatOp::Sub
        } else if op == MUL_F {
            FloatOp::Mul
        } else {
            FloatOp::Div
        };
        (
            r,
            next,
            ActionModel::FloatArith {
                op: f,
                lhs: r.floats[a1],
                rhs: r.floats[a2],
                reg: c.result_reg,
            },
        )
    } else if IF_I <= op <= IF_STRING {
        let b = if op == IF_I {
            r.ints[a1] == r.ints[a2]
        } else if op == IF_FLOAT {
            float_bits_eq(r.floats[a1], r.floats[a2])
        } else if op == IF_CHAR {
            r.chars[a1] == r.chars[a2]
        } else {
            r.strings[a1] == r.strings[a2]
        };
        (r.write(res, ValueModel::Bool(b)), next, ActionModel::Continue)
    } else if op == STR_TO_INT {
        convert(r, ip, c, RegisterType::Int)
    } else if op == STR_TO_BOOL {
        convert(r, ip, c, RegisterType::Bool)
    } else if op == STR_TO_CHAR {
        convert(r, ip, c, RegisterType::Char)
    } else if op == INT_TO_STR {
        (
            r.write(res, ValueModel::String(display(ValueModel::Int(r.ints[a1])))),
            next,
            ActionModel::Continue,
        )
    } else if op == BOOL_TO_STR {
        (
            r.write(res, ValueModel::String(display(ValueModel::Bool(r.bools[a1])))),
            next,
            ActionModel::Continue,
        )
    } else if op == CHAR_TO_STR {
        (
            r.write(res, ValueModel::String(display(ValueModel::Char(r.chars[a1])))),
            next,
            ActionModel::Continue,
        )
    } else if op == STR_TO_FLOAT {
        (
            r,
            next,
            ActionModel::ParseFloat { text: r.strings[a1], reg: c.result_reg, instruction: ip },
        )
    } else if op == FLOAT_TO_STR {
        (r, next, ActionModel::FormatFloat { bits: r.floats[a1], reg: c.result_reg })
    } else if op == SET_OUTPUT_TO_FILE {
        (r, next, ActionModel::OpenOutput { name: r.strings[a1], instruction: ip })
    } else if op == PRINT_STRING {
        (r, next, ActionModel::Print(r.strings[a1]))
    } else if op == JMP {
        (r, jump_target(ip, c.arg_reg1), ActionModel::Continue)
    } else if op == JMP_IF_TRUE {
        (
            r,
            if r.bools[a1] {
                jump_target(ip, c.arg_reg2)
            } else {
                next
            },
            ActionModel::Continue,
        )
    } else if op == JMP_IF_FALSE {
        (
            r,
            if !r.bools[a1] {
                jump_target(ip, c.arg_reg2)
            } else {
                next
            },
            ActionModel::Continue,
        )
    } else if op == HALT {
        (r, ip, ActionModel::Halt)
    } else if op == READ_STRING {
        (r, next, ActionModel::ReadLine { reg: c.result_reg })
    } else {
        (r, ip, ActionModel::Fault(unknown_opcode(op)))
    }
}


/// The interpreter's state: the register file, the instruction pointer, and
/// the bookkeeping of else blocks (a block is skipped when the pointer meets
/// its start while `is_if_block` is set; no instruction sets it).
pub struct Machine {
    pub registers: Registers,
    pub ip: usize,
    pub is_if_block: bool,
    pub else_start_index: usize,
    pub else_end_index: usize,
}

/// The mathematical model of a [`Machine`].
pub struct MachineModel {
    pub registers: RegistersModel,
    pub ip: usize,
    pub is_if_block: bool,
    pub else_start_index: usize,
    pub else_end_index: usize,
}

impl View for Machine {
    type V = MachineModel;

    open spec fn view(&self) -> MachineModel {
        MachineModel {
            registers: self.registers@,
            ip: self.ip,
            is_if_block: self.is_if_block,
            else_start_index: self.else_start_index,
            else_end_index: self.else_end_index,
        }
    }
}

/// One turn of the interpreter loop over `code`: stop when the pointer is past
/// the code; otherwise do the else-block bookkeeping and run the instruction.
pub open spec fn step_spec(m: MachineModel, code: Seq<Command>) -> (MachineModel, ActionModel) {
    if m.ip >= code.len() {
        (m, ActionModel::Halt)
    } else {
        let m1 = if !m.is_if_block {
            MachineModel { else_start_index: m.ip, else_end_index: m.ip, ..m }
        } else {
            m
        };
        if m1.is_if_block && m1.ip == m1.else_start_index {
            (MachineModel { ip: m1.else_end_index, ..m1 }, ActionModel::Continue)
        } else {
            let (r, ip, a) = execute(m1.registers, m1.ip, code[m1.ip as int]);
            (MachineModel { registers: r, ip: ip, ..m1 }, a)
        }
    }
}

fn out_of_bounds_message(index: u16, len: usize) -> (m: String)
    ensures
        m@ == out_of_bounds(index as int, len as int),
{
    let mut m = String::from_str("Register index ");
    m.append(usize_to_decimal(index as usize).as_str());
    m.append(" out of bounds (max ");
    m.append(usize_to_decimal(len).as_str());
    m.append(")");
    m
}

fn trunc_div_exec(x: i64, y: i64) -> (q: i64)
    requires
        y != 0,
        !(x == i64::MIN && y == -1),
    ensures
        q == trunc_div(x as int, y as int),
{
    let ax: u64 = if x >= 0 {
        x as u64
    } else if x == i64::MIN {
        9223372036854775808u64
    } else {
        (-x) as u64
    };
    let ay: u64 = if y >= 0 {
        y as u64
    } else if y == i64::MIN {
        9223372036854775808u64
    } else {
        (-y) as u64
    };
    let m = ax / ay;
    assert(m <= ax) by (nonlinear_arith)
        requires
            ay >= 1,
            m == ax / ay,
    ;
    if ay >= 2 {
        assert(m <= ax / 2) by (nonlinear_arith)
            requires
                ay >= 2,
                m == ax / ay,
        ;
    }
    if (x < 0) != (y < 0) {
        -(m as i128) as i64
    } else {
        m as i64
    }
}

fn int_arith_exec(opcode: u16, x: i64, y: i64) -> (r: Result<i64, String>)
    requires
        ADD_I <= opcode <= DIV_I,
    ensures
        match r {
            Ok(v) => int_arith(opcode, x, y) == Ok::<i64, Seq<char>>(v),
            Err(e) => int_arith(opcode, x, y) == Err::<i64, Seq<char>>(e@),
        },
{
    let a = x as i128;
    let b = y as i128;
    if opcode == ADD_I {
        let s = a + b;
        if s < i64::MIN as i128 || s > i64::MAX as i128 {
            Err(String::from_str("attempt to add with overflow"))
        } else {
            Ok(s as i64)
        }
    } else if opcode == SUB_I {
        let s = a - b;
        if s < i64::MIN as i128 || s > i64::MAX as i128 {
            Err(String::from_str("attempt to subtract with overflow"))
        } else {
            Ok(s as i64)
        }
    } else if opcode == MUL_I {
        assert(-0x4000_0000_0000_0000_0000_0000_0000_0000 <= a * b <= 0x4000_0000_0000_0000_0000_0000_0000_0000)
            by (nonlinear_arith)
            requires
                -0x8000_0000_0000_0000 <= a <= 0x7fff_ffff_ffff_ffff,
                -0x8000_0000_0000_0000 <= b <= 0x7fff_ffff_ffff_ffff,
        ;
        let s = a * b;
        if s < i64::MIN as i128 || s > i64::MAX as i128 {
            Err(String::from_str("attempt to multiply with overflow"))
        } else {
            Ok(s as i64)
        }
    } else {
        if y == 0 {
            Err(String::from_str("attempt to divide by zero"))
        } else if x == i64::MIN && y == -1 {
            Err(String::from_str("attempt to divide with overflow"))
        } else {
            Ok(trunc_div_exec(x, y))
        }
    }
}

fn float_bits_eq_exec(x: u64, y: u64) -> (r: bool)
    ensures
        r == float_bits_eq(x, y),
{
    let x_nan = (x / 0x10000000000000) % 2048 == 2047 && x % 0x10000000000000 != 0;
    let y_nan = (y / 0x10000000000000) % 2048 == 2047 && y % 0x10000000000000 != 0;
    !x_nan && !y_nan && (x == y || (x % 0x8000000000000000 == 0 && y % 0x8000000000000000 == 0))
}

fn jump_target_exec(ip: usize, a: u16) -> (t: usize)
    ensures
        t == jump_target(ip, a),
{
    let off: i128 = if a >= 32768 {
        a as i128 - 65536
    } else {
        a as i128
    };
    (ip as i128 + off) as usize
}

fn at_instruction_message(e: String, ip: usize) -> (m: String)
    ensures
        m@ == at_instruction(e@, ip),
{
    let mut m = e;
    m.append(" at instruction ");
    m.append(usize_to_decimal(ip).as_str());
    m
}

fn unknown_opcode_message(op: u16) -> (m: String)
    ensures
        m@ == unknown_opcode(op),
{
    let mut m = String::from_str("Unknown opcode: 0x");
    push_hex4(&mut m, op);
    m
}


impl Machine {
    /// The register banks have one length.
    pub open spec fn wf(&self) -> bool {
        self.registers@.wf()
    }

    /// A machine about to run from the first instruction.
    pub fn new(registers: Registers) -> (m: Machine)
        ensures
            m@ == (MachineModel {
                registers: registers@,
                ip: 0,
                is_if_block: false,
                else_start_index: 0,
                else_end_index: 0,
            }),
    {
        Machine { registers, ip: 0, is_if_block: false, else_start_index: 0, else_end_index: 0 }
    }

    /// Stores a result that the host computed into register `reg` of the
    /// value's bank.
    pub fn store_result(&mut self, reg: u16, value: Value)
        requires
            old(self).wf(),
            !(value@ is Null),
        ensures
            final(self).wf(),
            final(self)@ == (MachineModel {
                registers: old(self)@.registers.write(reg as int, value@),
                ..old(self)@
            }),
    {
        let t = match &value {
            Value::Int(_) => RegisterType::Int,
            Value::Float(_) => RegisterType::Float,
            Value::Bool(_) => RegisterType::Bool,
            Value::String(_) => RegisterType::String,
            _ => RegisterType::Char,
        };
        proof {
            lemma_write_keeps_wf(self.registers@, reg as int, value@);
        }
        set_registr(&mut self.registers, t, reg as usize, value);
    }

    fn write(&mut self, t: RegisterType, reg: u16, value: Value)
        requires
            old(self).wf(),
            value_fits(t, value@),
        ensures
            final(self).wf(),
            final(self)@ == (MachineModel {
                registers: old(self)@.registers.write(reg as int, value@),
                ..old(self)@
            }),
    {
        proof {
            lemma_write_keeps_wf(self.registers@, reg as int, value@);
        }
        set_registr(&mut self.registers, t, reg as usize, value);
    }

    /// One turn of the interpreter loop over `code`.
    pub fn step(&mut self, code: &Vec<Command>) -> (a: Action)
        requires
            old(self).wf(),
        ensures
            final(self).wf(),
            (final(self)@, a@) == step_spec(old(self)@, code@),
    {
        if self.ip >= code.len() {
            return Action::Halt;
        }
        if !self.is_if_block {
            self.else_start_index = self.ip;
            self.else_end_index = self.ip;
        }
        if self.is_if_block && self.ip == self.else_start_index {
            self.ip = self.else_end_index;
            return Action::Continue;
        }
        let c = code[self.ip];
        self.run(c)
    }

    fn run(&mut self, c: Command) -> (a: Action)
        requires
            old(self).wf(),
            old(self).ip < usize::MAX,
        ensures
            final(self).wf(),
            ({
                let (r, ip, act) = execute(old(self)@.registers, old(self).ip, c);
                &&& final(self)@ == (MachineModel { registers: r, ip: ip, ..old(self)@ })
                &&& a@ == act
            }),
    {
        let op = c.opcode;
        let a1 = c.arg_reg1 as usize;
        let a2 = c.arg_reg2 as usize;
        let n = self.registers.int_registr.len();
        let ip = self.ip;
        let two_reads = (ADD_I <= op && op <= DIV_F) || (IF_I <= op && op <= IF_STRING);
        let one_read = (STR_TO_INT <= op && op <= CHAR_TO_STR) || op == SET_OUTPUT_TO_FILE || op
            == PRINT_STRING || op == JMP_IF_TRUE || op == JMP_IF_FALSE;
        if (two_reads || one_read) && a1 >= n {
            return Action::Fault(out_of_bounds_message(c.arg_reg1, n));
        }
        if two_reads && a2 >= n {
            return Action::Fault(out_of_bounds_message(c.arg_reg2, n));
        }
        if ADD_I <= op && op <= DIV_I {
            let x = self.registers.int_registr[a1];
            let y = self.registers.int_registr[a2];
            match int_arith_exec(op, x, y) {
                Ok(v) => {
                    self.write(RegisterType::Int, c.result_reg, Value::Int(v));
                    self.ip = ip + 1;
                    Action::Continue
                },
                Err(e) => Action::Fault(e),
            }
        } else if ADD_F <= op && op <= DIV_F {
            let f = if op == ADD_F {
                FloatOp::Add
            } else if op == SUB_F {
                FloatOp::Sub
            } else if op == MUL_F {
                FloatOp::Mul
            } else {
                FloatOp::Div
            };
            let lhs = self.registers.float_registr[a1];
            let rhs = self.registers.float_registr[a2];
            self.ip = ip + 1;
            Action::FloatArith { op: f, lhs, rhs, reg: c.result_reg }
        } else if IF_I <= op && op <= IF_STRING {
            let b = if op == IF_I {
                self.registers.int_registr[a1] == self.registers.int_registr[a2]
            } else if op == IF_FLOAT {
                float_bits_eq_exec(self.registers.float_registr[a1], self.registers.float_registr[a2])
            } else if op == IF_CHAR {
                self.registers.char_registr[a1] == self.registers.char_registr[a2]
            } else {
                self.registers.string_registr[a1] == self.registers.string_registr[a2]
            };
            self.write(RegisterType::Bool, c.result_reg, Value::Bool(b));
            self.ip = ip + 1;
            Action::Continue
        } else if op == STR_TO_INT || op == STR_TO_BOOL || op == STR_TO_CHAR {
            let t = if op == STR_TO_INT {
                RegisterType::Int
            } else if op == STR_TO_BOOL {
                RegisterType::Bool
            } else {
                RegisterType::Char
            };
            let parsed_value = parse_string_to_value(self.registers.string_registr[a1].as_str(), t);
            match parsed_value {
                Ok(v) => {
                    self.write(t, c.result_reg, v);
                    self.ip = ip + 1;
                    Action::Continue
                },
                Err(e) => Action::Fault(at_instruction_message(e, ip)),
            }
        } else if op == INT_TO_STR || op == BOOL_TO_STR || op == CHAR_TO_STR {
            let v = if op == INT_TO_STR {
                Value::Int(self.registers.int_registr[a1])
            } else if op == BOOL_TO_STR {
                Value::Bool(self.registers.bool_registr[a1])
            } else {
                Value::Char(self.registers.char_registr[a1])
            };
            let text = value_to_string(&v);
            self.write(RegisterType::String, c.result_reg, Value::String(text));
            self.ip = ip + 1;
            Action::Continue
        } else if op == STR_TO_FLOAT {
            let text = self.registers.string_registr[a1].clone();
            self.ip = ip + 1;
            Action::ParseFloat { text, reg: c.result_reg, instruction: ip }
        } else if op == FLOAT_TO_STR {
            let bits = self.registers.float_registr[a1];
            self.ip = ip + 1;
            Action::FormatFloat { bits, reg: c.result_reg }
        } else if op == SET_OUTPUT_TO_FILE {
            let name = self.registers.string_registr[a1].clone();
            self.ip = ip + 1;
            Action::OpenOutput { name, instruction: ip }
        } else if op == PRINT_STRING {
            let text = self.registers.string_registr[a1].clone();
            self.ip = ip + 1;
            Action::Print(text)
        } else if op == JMP {
            self.ip = jump_target_exec(ip, c.arg_reg1);
            Action::Continue
        } else if op == JMP_IF_TRUE || op == JMP_IF_FALSE {
            let cond = self.registers.bool_registr[a1];
            if cond == (op == JMP_IF_TRUE) {
                self.ip = jump_target_exec(ip, c.arg_reg2);
            } else {
                self.ip = ip + 1;
            }
            Action::Continue
        } else if op == HALT {
            Action::Halt
        } else if op == READ_STRING {
            self.ip = ip + 1;
            Action::ReadLine { reg: c.result_reg }
        } else {
            Action::Fault(unknown_opcode_message(op))
        }
    }
}


/// The largest register number among the entries (0 for none).
pub open spec fn max_registr(cmds: Seq<DataCommandModel>) -> nat
    decreases cmds.len(),
{
    if cmds.len() == 0 {
        0
    } else {
        let m = max_registr(cmds.drop_last());
        if cmds.last().registr > m {
            cmds.last().registr as nat
        } else {
            m
        }
    }
}

/// The file before the entries are stored: empty for no entries, else every
/// bank sized to hold the largest register number named.
pub open spec fn initial_file(cmds: Seq<DataCommandModel>) -> RegistersModel {
    if cmds.len() == 0 {
        empty_registers()
    } else {
        empty_registers().grown(max_registr(cmds) as int)
    }
}

/// The `{:?}` name of a bank.
pub open spec fn bank_name(t: RegisterType) -> Seq<char> {
    match t {
        RegisterType::Int => "Int"@,
        RegisterType::Float => "Float"@,
        RegisterType::Bool => "Bool"@,
        RegisterType::String => "String"@,
        RegisterType::Char => "Char"@,
    }
}

/// The file after the first `k` entries are stored, or the message of the
/// first entry that cannot be: one whose type byte names no bank, or whose
/// value is not of that bank.
pub open spec fn loaded(cmds: Seq<DataCommandModel>, k: nat) -> Result<RegistersModel, Seq<char>>
    decreases k,
{
    if k == 0 {
        Ok(initial_file(cmds))
    } else {
        match loaded(cmds, (k - 1) as nat) {
            Err(e) => Err(e),
            Ok(r) => {
                let c = cmds[k - 1];
                match data_type_bank(c.data_type) {
                    None => Err("Unknown data type: "@ + int_decimal(c.data_type as int)),
                    Some(t) => if value_fits(t, c.value) {
                        Ok(r.write(c.registr as int, c.value))
                    } else {
                        Err("Type mismatch: expected "@ + bank_name(t) + ", got different value"@)
                    },
                }
            },
        }
    }
}

fn copy_value(v: &Value) -> (r: Value)
    ensures
        r@ == v@,
{
    match v {
        Value::Int(x) => Value::Int(*x),
        Value::Float(x) => Value::Float(*x),
        Value::Bool(x) => Value::Bool(*x),
        Value::String(x) => Value::String(x.clone()),
        Value::Char(x) => Value::Char(*x),
        Value::Null => Value::Null,
    }
}

fn bank_name_string(t: RegisterType) -> (s: String)
    ensures
        s@ == bank_name(t),
{
    match t {
        RegisterType::Int => String::from_str("Int"),
        RegisterType::Float => String::from_str("Float"),
        RegisterType::Bool => String::from_str("Bool"),
        RegisterType::String => String::from_str("String"),
        RegisterType::Char => String::from_str("Char"),
    }
}

fn bank_of_data_type(t: i8) -> (r: Option<RegisterType>)
    ensures
        r == data_type_bank(t),
{
    if t == 1 {
        Some(RegisterType::Int)
    } else if t == 2 {
        Some(RegisterType::Float)
    } else if t == 3 {
        Some(RegisterType::Bool)
    } else if t == 4 {
        Some(RegisterType::String)
    } else if t == 5 {
        Some(RegisterType::Char)
    } else {
        None
    }
}

fn fits(t: RegisterType, v: &Value) -> (r: bool)
    ensures
        r == value_fits(t, v@),
{
    match (t, v) {
        (RegisterType::Int, Value::Int(_)) => true,
        (RegisterType::Float, Value::Float(_)) => true,
        (RegisterType::Bool, Value::Bool(_)) => true,
        (RegisterType::String, Value::String(_)) => true,
        (RegisterType::Char, Value::Char(_)) => true,
        _ => false,
    }
}

proof fn lemma_loaded_error_stays(cmds: Seq<DataCommandModel>, i: nat, n: nat)
    requires
        i <= n,
        loaded(cmds, i) is Err,
    ensures
        loaded(cmds, n) == loaded(cmds, i),
    decreases n - i,
{
    if i < n {
        lemma_loaded_error_stays(cmds, i, (n - 1) as nat);
    }
}

proof fn lemma_loaded_wf(cmds: Seq<DataCommandModel>, k: nat)
    requires
        loaded(cmds, k) is Ok,
    ensures
        loaded(cmds, k)->Ok_0.wf(),
    decreases k,
{
    if k > 0 {
        lemma_loaded_wf(cmds, (k - 1) as nat);
        let r = loaded(cmds, (k - 1) as nat)->Ok_0;
        crate::memory::lemma_write_keeps_wf(r, cmds[k - 1].registr as int, cmds[k - 1].value);
    }
}

/// Fills a register file from the DATA entries: every bank sized for the
/// largest register named, then each entry's value stored in its register,
/// in order. Fails with the message of the first entry that cannot be stored.
pub fn load_data(cmds: &Vec<DataCommand>) -> (r: Result<Registers, String>)
    ensures
        match r {
            Ok(regs) => loaded(entries_view(cmds@), cmds@.len()) == Ok::<_, Seq<char>>(regs@)
                && regs@.wf(),
            Err(e) => loaded(entries_view(cmds@), cmds@.len()) == Err::<RegistersModel, _>(e@),
        },
{
    let ghost model = entries_view(cmds@);
    let mut registers = crate::memory::init();
    let n = cmds.len();
    if n > 0 {
        let mut max_reg: u16 = 0;
        let mut i: usize = 0;
        while i < n
            invariant
                i <= n == cmds.len(),
                model == entries_view(cmds@),
                max_reg == max_registr(model.take(i as int)),
            decreases n - i,
        {
            proof {
                assert(model.take(i + 1).drop_last() =~= model.take(i as int));
            }
            if cmds[i].registr > max_reg {
                max_reg = cmds[i].registr;
            }
            i += 1;
        }
        assert(model.take(n as int) =~= model);
        let len = max_reg as usize + 1;
        registers.int_registr.resize(len, 0);
        registers.float_registr.resize(len, 0);
        registers.bool_registr.resize(len, false);
        registers.string_registr.resize(len, String::new());
        registers.char_registr.resize(len, '\0');
        proof {
            let g = initial_file(model);
            assert(registers.int_registr@ =~= g.ints);
            assert(registers.float_registr@ =~= g.floats);
            assert(registers.bool_registr@ =~= g.bools);
            assert(registers.char_registr@ =~= g.chars);
            assert(registers@.strings =~= g.strings);
        }
    }
    assert(registers@ == initial_file(model));
    let mut k: usize = 0;
    while k < n
        invariant
            k <= n == cmds.len(),
            model == entries_view(cmds@),
            loaded(model, k as nat) == Ok::<_, Seq<char>>(registers@),
        decreases n - k,
    {
        let cmd = &cmds[k];
        let ghost c = model[k as int];
        assert(c == cmd@);
        match bank_of_data_type(cmd.data_type) {
            None => {
                let mut m = String::from_str("Unknown data type: ");
                m.append(i64_to_decimal(cmd.data_type as i64).as_str());
                proof {
                    lemma_loaded_error_stays(model, (k + 1) as nat, n as nat);
                }
                return Err(m);
            },
            Some(t) => {
                if !fits(t, &cmd.value) {
                    let mut m = String::from_str("Type mismatch: expected ");
                    m.append(bank_name_string(t).as_str());
                    m.append(", got different value");
                    proof {
                        lemma_loaded_error_stays(model, (k + 1) as nat, n as nat);
                    }
                    return Err(m);
                }
                proof {
                    lemma_loaded_wf(model, k as nat);
                }
                set_registr(&mut registers, t, cmd.registr as usize, copy_value(&cmd.value));
            },
        }
        k += 1;
    }
    proof {
        lemma_loaded_wf(model, n as nat);
    }
    Ok(registers)
}


proof fn lemma_loaded_ok_before(cmds: Seq<DataCommandModel>, k: nat, n: nat)
    requires
        k <= n,
        loaded(cmds, n) is Ok,
    ensures
        loaded(cmds, k) is Ok,
{
    if loaded(cmds, k) is Err {
        lemma_loaded_error_stays(cmds, k, n);
    }
}

proof fn lemma_well_typed_loads(cmds: Seq<DataCommandModel>, k: nat)
    requires
        k <= cmds.len(),
        forall|i: int| 0 <= i < cmds.len() ==> well_typed(#[trigger] cmds[i]),
    ensures
        loaded(cmds, k) is Ok,
    decreases k,
{
    if k > 0 {
        lemma_well_typed_loads(cmds, (k - 1) as nat);
        assert(well_typed(cmds[k - 1]));
    }
}

/// The DATA entries of any image that reads successfully load without fault.
pub proof fn lemma_program_data_loads(b: Seq<u8>)
    requires
        program(b) is Ok,
        !negative_code_size(b),
    ensures
        loaded(program(b)->Ok_0.2, program(b)->Ok_0.2.len()) is Ok,
{
    lemma_program_shape(b);
    lemma_well_typed_loads(program(b)->Ok_0.2, program(b)->Ok_0.2.len());
}

/// After loading, a register holds the value of the last entry that names it
/// (with its bank).
pub proof fn lemma_loaded_register_holds(cmds: Seq<DataCommandModel>, i: int)
    requires
        0 <= i < cmds.len(),
        loaded(cmds, cmds.len()) is Ok,
        forall|j: int|
            i < j < cmds.len() ==> !(#[trigger] cmds[j].registr == cmds[i].registr
                && data_type_bank(cmds[j].data_type) == data_type_bank(cmds[i].data_type)),
    ensures
        ({
            let r = loaded(cmds, cmds.len())->Ok_0;
            let t = data_type_bank(cmds[i].data_type)->Some_0;
            &&& r.readable(t, cmds[i].registr as int)
            &&& r.read(t, cmds[i].registr as int) == cmds[i].value
        }),
{
    lemma_holds_from(cmds, i, cmds.len());
}

proof fn lemma_holds_from(cmds: Seq<DataCommandModel>, i: int, k: nat)
    requires
        0 <= i < k <= cmds.len(),
        loaded(cmds, cmds.len()) is Ok,
        forall|j: int|
            i < j < cmds.len() ==> !(#[trigger] cmds[j].registr == cmds[i].registr
                && data_type_bank(cmds[j].data_type) == data_type_bank(cmds[i].data_type)),
    ensures
        ({
            let r = loaded(cmds, k)->Ok_0;
            let t = data_type_bank(cmds[i].data_type)->Some_0;
            &&& r.readable(t, cmds[i].registr as int)
            &&& r.read(t, cmds[i].registr as int) == cmds[i].value
        }),
    decreases k,
{
    lemma_loaded_ok_before(cmds, k, cmds.len());
    lemma_loaded_ok_before(cmds, (k - 1) as nat, cmds.len());
    lemma_loaded_wf(cmds, (k - 1) as nat);
    let prev = loaded(cmds, (k - 1) as nat)->Ok_0;
    let c = cmds[k - 1];
    let tc = data_type_bank(c.data_type)->Some_0;
    if k - 1 == i {
        crate::memory::lemma_read_after_write(prev, tc, c.registr as int, c.value);
    } else {
        lemma_holds_from(cmds, i, (k - 1) as nat);
        let t = data_type_bank(cmds[i].data_type)->Some_0;
        lemma_loaded_ok_before(cmds, (i + 1) as nat, cmds.len());
        lemma_loaded_ok_before(cmds, i as nat, cmds.len());
        assert(data_type_bank(cmds[i].data_type) is Some);
        assert(!(cmds[k - 1].registr == cmds[i].registr && data_type_bank(cmds[k - 1].data_type)
            == data_type_bank(cmds[i].data_type)));
        crate::memory::lemma_write_frame(
            prev,
            tc,
            c.registr as int,
            c.value,
            t,
            cmds[i].registr as int,
        );
    }
}

/// An instruction that is no jump and no `HALT`, and that does not fault,
/// moves the pointer to the next instruction.
pub proof fn lemma_straight_line(r: RegistersModel, ip: usize, c: Command)
    requires
        ip < usize::MAX,
        c.opcode != JMP,
        c.opcode != JMP_IF_TRUE,
        c.opcode != JMP_IF_FALSE,
        c.opcode != HALT,
        !(execute(r, ip, c).2 is Fault),
    ensures
        execute(r, ip, c).1 == ip + 1,
{
}

/// A fault or a `HALT` changes neither the registers nor the pointer.
pub proof fn lemma_stop_changes_nothing(r: RegistersModel, ip: usize, c: Command)
    requires
        execute(r, ip, c).2 is Fault || execute(r, ip, c).2 is Halt,
    ensures
        execute(r, ip, c).0 == r,
        execute(r, ip, c).1 == ip,
{
}

/// Only the result register is written: every other readable register of
/// every bank keeps its value through an instruction.
pub proof fn lemma_execute_frame(r: RegistersModel, ip: usize, c: Command, t: RegisterType, j: int)
    requires
        r.wf(),
        r.readable(t, j),
        j != c.result_reg as int,
    ensures
        execute(r, ip, c).0.readable(t, j),
        execute(r, ip, c).0.read(t, j) == r.read(t, j),
{
}


/// The operands of `c` are in the file.
pub open spec fn operands_in(r: RegistersModel, c: Command) -> bool {
    r.wf() && (c.arg_reg1 as int) < r.ints.len() && (c.arg_reg2 as int) < r.ints.len()
}

proof fn lemma_trunc_div_remainder(x: int, y: int)
    requires
        y != 0,
    ensures
        ({
            let q = trunc_div(x, y);
            let rem = x - q * y;
            &&& -(if y < 0 { -y } else { y }) < rem < (if y < 0 { -y } else { y })
            &&& rem == 0 || (rem < 0) == (x < 0)
            &&& (if q < 0 { -q } else { q }) <= (if x < 0 { -x } else { x })
            &&& ((if y < 0 { -y } else { y }) == 1 ==> (if q < 0 { -q } else { q }) == (if x < 0 {
                -x
            } else {
                x
            }))
            &&& ((if y < 0 { -y } else { y }) >= 2 ==> 2 * (if q < 0 { -q } else { q }) <= (if x
                < 0 {
                -x
            } else {
                x
            }))
        }),
{
    let ax = if x < 0 { -x } else { x };
    let ay = if y < 0 { -y } else { y };
    let m = ax / ay;
    let rr = ax % ay;
    vstd::arithmetic::div_mod::lemma_fundamental_div_mod(ax, ay);
    vstd::arithmetic::div_mod::lemma_mod_pos_bound(ax, ay);
    assert(m >= 0) by (nonlinear_arith)
        requires
            ax >= 0,
            ay > 0,
            m == ax / ay,
    ;
    assert(m <= ax) by (nonlinear_arith)
        requires
            ax >= 0,
            ay >= 1,
            m == ax / ay,
    ;
    if ay == 1 {
        assert(m == ax) by (nonlinear_arith)
            requires
                ay == 1,
                m == ax / ay,
        ;
    } else {
        assert(2 * m <= ax) by (nonlinear_arith)
            requires
                ax >= 0,
                ay >= 2,
                m == ax / ay,
        ;
    }
    let q = trunc_div(x, y);
    if x >= 0 && y > 0 {
        assert(q * y == m * ay);
    } else if x >= 0 {
        assert(q * y == m * ay) by (nonlinear_arith)
            requires
                q == -m,
                y == -ay,
        ;
    } else if y > 0 {
        assert(q * y == -(m * ay)) by (nonlinear_arith)
            requires
                q == -m,
                y == ay,
        ;
    } else {
        assert(q * y == -(m * ay)) by (nonlinear_arith)
            requires
                q == m,
                y == -ay,
        ;
    }
}

/// `DIV_I` stores the quotient rounded toward zero: `x == q * y + rem`,
/// with `rem` smaller than `y` in size and zero or of the sign of `x`.
pub proof fn lemma_div_rounds_toward_zero(r: RegistersModel, ip: usize, c: Command)
    requires
        operands_in(r, c),
        c.opcode == DIV_I,
        r.ints[c.arg_reg2 as int] != 0,
        !(r.ints[c.arg_reg1 as int] == i64::MIN && r.ints[c.arg_reg2 as int] == -1),
    ensures
        ({
            let (r2, ip2, act) = execute(r, ip, c);
            let x = r.ints[c.arg_reg1 as int] as int;
            let y = r.ints[c.arg_reg2 as int] as int;
            let q = r2.ints[c.result_reg as int] as int;
            let rem = x - q * y;
            &&& act is Continue
            &&& ip2 == (ip + 1) as usize
            &&& (c.result_reg as int) < r2.ints.len()
            &&& -(if y < 0 { -y } else { y }) < rem < (if y < 0 { -y } else { y })
            &&& rem == 0 || (rem < 0) == (x < 0)
        }),
{
    let x = r.ints[c.arg_reg1 as int] as int;
    let y = r.ints[c.arg_reg2 as int] as int;
    lemma_trunc_div_remainder(x, y);
    let q = trunc_div(x, y);
    assert(i64::MIN <= q <= i64::MAX) by {
        if y == 1 {
            assert(q == x);
        } else if y == -1 {
            assert(q == -x);
        }
    }
}

/// `ADD_I`, `SUB_I` and `MUL_I` store the sum, difference or product when it
/// is an `i64`, and fault otherwise, leaving the file as it was.
pub proof fn lemma_int_arith_result(r: RegistersModel, ip: usize, c: Command)
    requires
        operands_in(r, c),
        c.opcode == ADD_I || c.opcode == SUB_I || c.opcode == MUL_I,
    ensures
        ({
            let (r2, ip2, act) = execute(r, ip, c);
            let x = r.ints[c.arg_reg1 as int] as int;
            let y = r.ints[c.arg_reg2 as int] as int;
            let exact = if c.opcode == ADD_I {
                x + y
            } else if c.opcode == SUB_I {
                x - y
            } else {
                x * y
            };
            if i64::MIN <= exact <= i64::MAX {
                &&& act is Continue
                &&& ip2 == (ip + 1) as usize
                &&& (c.result_reg as int) < r2.ints.len()
                &&& r2.ints[c.result_reg as int] as int == exact
            } else {
                &&& act is Fault
                &&& r2 == r
                &&& ip2 == ip
            }
        }),
{
}

/// The comparisons store in the result boolean register whether the two
/// operand registers of their bank hold equal values.
pub proof fn lemma_compare_equal(r: RegistersModel, ip: usize, c: Command)
    requires
        operands_in(r, c),
        c.opcode == IF_I || c.opcode == IF_CHAR || c.opcode == IF_STRING,
    ensures
        ({
            let (r2, ip2, act) = execute(r, ip, c);
            let a1 = c.arg_reg1 as int;
            let a2 = c.arg_reg2 as int;
            &&& act is Continue
            &&& ip2 == (ip + 1) as usize
            &&& (c.result_reg as int) < r2.bools.len()
            &&& r2.bools[c.result_reg as int] == (if c.opcode == IF_I {
                r.ints[a1] == r.ints[a2]
            } else if c.opcode == IF_CHAR {
                r.chars[a1] == r.chars[a2]
            } else {
                r.strings[a1] == r.strings[a2]
            })
        }),
{
}

/// `IF_FLOAT` compares doubles as IEEE 754 does: a NaN (exponent all ones,
/// mantissa not zero) equals nothing, +0.0 equals -0.0, and otherwise two
/// doubles are equal exactly when their bits are.
pub proof fn lemma_compare_floats(r: RegistersModel, ip: usize, c: Command)
    requires
        operands_in(r, c),
        c.opcode == IF_FLOAT,
    ensures
        ({
            let (r2, ip2, act) = execute(r, ip, c);
            let x = r.floats[c.arg_reg1 as int];
            let y = r.floats[c.arg_reg2 as int];
            let nan_x = (0x7ff0000000000001 <= x <= 0x7fffffffffffffff) || (0xfff0000000000001
                <= x);
            let nan_y = (0x7ff0000000000001 <= y <= 0x7fffffffffffffff) || (0xfff0000000000001
                <= y);
            let zero_x = x == 0 || x == 0x8000000000000000;
            let zero_y = y == 0 || y == 0x8000000000000000;
            &&& act is Continue
            &&& ip2 == (ip + 1) as usize
            &&& (c.result_reg as int) < r2.bools.len()
            &&& r2.bools[c.result_reg as int] == (!nan_x && !nan_y && (x == y || (zero_x
                && zero_y)))
        }),
{
    let x = r.floats[c.arg_reg1 as int];
    let y = r.floats[c.arg_reg2 as int];
    assert(is_nan_bits(x) == ((0x7ff0000000000001 <= x <= 0x7fffffffffffffff) || (
    0xfff0000000000001 <= x))) by (bit_vector);
    assert(is_nan_bits(y) == ((0x7ff0000000000001 <= y <= 0x7fffffffffffffff) || (
    0xfff0000000000001 <= y))) by (bit_vector);
    assert(is_zero_bits(x) == (x == 0 || x == 0x8000000000000000)) by (bit_vector);
    assert(is_zero_bits(y) == (y == 0 || y == 0x8000000000000000)) by (bit_vector);
}

/// The signed offset held in an operand, read as a two's complement `i16`.
pub open spec fn signed_operand(a: u16) -> int {
    if a < 0x8000 {
        a as int
    } else {
        a as int - 0x10000
    }
}

/// The jumps: `JMP` always moves by the signed offset in its first operand;
/// `JMP_IF_TRUE` and `JMP_IF_FALSE` move by the signed offset in their second
/// operand when the boolean register of the first is true, respectively
/// false, and otherwise go to the next instruction. No register changes.
pub proof fn lemma_jumps(r: RegistersModel, ip: usize, c: Command)
    requires
        operands_in(r, c),
        c.opcode == JMP || c.opcode == JMP_IF_TRUE || c.opcode == JMP_IF_FALSE,
    ensures
        ({
            let (r2, ip2, act) = execute(r, ip, c);
            let cond = r.bools[c.arg_reg1 as int];
            &&& act is Continue
            &&& r2 == r
            &&& c.opcode == JMP ==> ip2 == (ip + signed_operand(c.arg_reg1)) as usize
            &&& c.opcode == JMP_IF_TRUE ==> ip2 == (if cond {
                (ip + signed_operand(c.arg_reg2)) as usize
            } else {
                (ip + 1) as usize
            })
            &&& c.opcode == JMP_IF_FALSE ==> ip2 == (if !cond {
                (ip + signed_operand(c.arg_reg2)) as usize
            } else {
                (ip + 1) as usize
            })
        }),
{
}

/// The conversions to text: `CHAR_TO_STR` stores the one-character string
/// of the character, `BOOL_TO_STR` the word `true` or `false`, and
/// `INT_TO_STR` a text that reads back, as an `i64`, as the integer.
pub proof fn lemma_to_text(r: RegistersModel, ip: usize, c: Command)
    requires
        operands_in(r, c),
        c.opcode == CHAR_TO_STR || c.opcode == BOOL_TO_STR || c.opcode == INT_TO_STR,
    ensures
        ({
            let (r2, ip2, act) = execute(r, ip, c);
            let a1 = c.arg_reg1 as int;
            let text = r2.strings[c.result_reg as int];
            &&& act is Continue
            &&& ip2 == (ip + 1) as usize
            &&& (c.result_reg as int) < r2.strings.len()
            &&& c.opcode == CHAR_TO_STR ==> text == seq![r.chars[a1]]
            &&& c.opcode == BOOL_TO_STR ==> text == (if r.bools[a1] {
                "true"@
            } else {
                "false"@
            })
            &&& c.opcode == INT_TO_STR ==> crate::text::parse_i64(text) == Some(r.ints[a1])
        }),
{
    crate::text::lemma_decimal_round_trip(r.ints[c.arg_reg1 as int]);
}


/// `STR_TO_CHAR` stores the first character of the string register that is
/// not whitespace; a string of whitespace only faults, changing nothing.
pub proof fn lemma_string_to_char(r: RegistersModel, ip: usize, c: Command)
    requires
        operands_in(r, c),
        c.opcode == STR_TO_CHAR,
    ensures
        ({
            let (r2, ip2, act) = execute(r, ip, c);
            let s = r.strings[c.arg_reg1 as int];
            &&& forall|k: int|
                0 <= k < s.len() && !crate::text::is_whitespace(#[trigger] s[k]) && (forall|j: int|
                    0 <= j < k ==> crate::text::is_whitespace(s[j])) ==> {
                    &&& act is Continue
                    &&& ip2 == (ip + 1) as usize
                    &&& (c.result_reg as int) < r2.chars.len()
                    &&& r2.chars[c.result_reg as int] == s[k]
                }
            &&& (forall|j: int| 0 <= j < s.len() ==> crate::text::is_whitespace(#[trigger] s[j]))
                ==> act is Fault && r2 == r && ip2 == ip
        }),
{
    crate::text::lemma_trim_first(r.strings[c.arg_reg1 as int]);
}

/// The float instructions hand the host the right operation on the bits of
/// the two operand registers (or of the one, or the text of the string
/// register), for the result register; the file does not change.
pub proof fn lemma_float_actions(r: RegistersModel, ip: usize, c: Command)
    requires
        operands_in(r, c),
        ADD_F <= c.opcode <= DIV_F || c.opcode == STR_TO_FLOAT || c.opcode == FLOAT_TO_STR,
    ensures
        ({
            let (r2, ip2, act) = execute(r, ip, c);
            let a1 = c.arg_reg1 as int;
            let a2 = c.arg_reg2 as int;
            &&& r2 == r
            &&& ip2 == (ip + 1) as usize
            &&& c.opcode == ADD_F ==> act == (ActionModel::FloatArith {
                op: FloatOp::Add,
                lhs: r.floats[a1],
                rhs: r.floats[a2],
                reg: c.result_reg,
            })
            &&& c.opcode == SUB_F ==> act == (ActionModel::FloatArith {
                op: FloatOp::Sub,
                lhs: r.floats[a1],
                rhs: r.floats[a2],
                reg: c.result_reg,
            })
            &&& c.opcode == MUL_F ==> act == (ActionModel::FloatArith {
                op: FloatOp::Mul,
                lhs: r.floats[a1],
                rhs: r.floats[a2],
                reg: c.result_reg,
            })
            &&& c.opcode == DIV_F ==> act == (ActionModel::FloatArith {
                op: FloatOp::Div,
                lhs: r.floats[a1],
                rhs: r.floats[a2],
                reg: c.result_reg,
            })
            &&& c.opcode == STR_TO_FLOAT ==> act == (ActionModel::ParseFloat {
                text: r.strings[a1],
                reg: c.result_reg,
                instruction: ip,
            })
            &&& c.opcode == FLOAT_TO_STR ==> act == (ActionModel::FormatFloat {
                bits: r.floats[a1],
                reg: c.result_reg,
            })
        }),
{
}

/// Output and input: `PRINT_STRING` prints the string register, 
/// `SET_OUTPUT_TO_FILE` opens the file it names, `READ_STRING` asks for a
/// line for the result register; the file does not change.
pub proof fn lemma_io_actions(r: RegistersModel, ip: usize, c: Command)
    requires
        operands_in(r, c),
        c.opcode == PRINT_STRING || c.opcode == SET_OUTPUT_TO_FILE || c.opcode == READ_STRING,
    ensures
        ({
            let (r2, ip2, act) = execute(r, ip, c);
            &&& r2 == r
            &&& ip2 == (ip + 1) as usize
            &&& c.opcode == PRINT_STRING ==> act == ActionModel::Print(r.strings[c.arg_reg1 as int])
            &&& c.opcode == SET_OUTPUT_TO_FILE ==> act == (ActionModel::OpenOutput {
                name: r.strings[c.arg_reg1 as int],
                instruction: ip,
            })
            &&& c.opcode == READ_STRING ==> act == (ActionModel::ReadLine { reg: c.result_reg })
        }),
{
}


/// Converting a register to text and the text back gives the value again:
/// `INT_TO_STR` then `STR_TO_INT`, `BOOL_TO_STR` then `STR_TO_BOOL`, and
/// `CHAR_TO_STR` then `STR_TO_CHAR` for a character that is not whitespace.
pub proof fn lemma_text_round_trip(
    r: RegistersModel,
    ip: usize,
    t: RegisterType,
    src: u16,
    text: u16,
    dst: u16,
)
    requires
        r.wf(),
        (src as int) < r.ints.len(),
        (text as int) < r.ints.len(),
        ip < usize::MAX - 1,
        t == RegisterType::Int || t == RegisterType::Bool || t == RegisterType::Char,
        t == RegisterType::Char ==> !crate::text::is_whitespace(r.chars[src as int]),
    ensures
        ({
            let to_text = if t == RegisterType::Int {
                INT_TO_STR
            } else if t == RegisterType::Bool {
                BOOL_TO_STR
            } else {
                CHAR_TO_STR
            };
            let from_text = if t == RegisterType::Int {
                STR_TO_INT
            } else if t == RegisterType::Bool {
                STR_TO_BOOL
            } else {
                STR_TO_CHAR
            };
            let c1 = Command { opcode: to_text, result_reg: text, arg_reg1: src, arg_reg2: 0 };
            let c2 = Command { opcode: from_text, result_reg: dst, arg_reg1: text, arg_reg2: 0 };
            let (r1, ip1, act1) = execute(r, ip, c1);
            let (r2, ip2, act2) = execute(r1, ip1, c2);
            &&& act1 is Continue
            &&& act2 is Continue
            &&& ip2 == ip + 2
            &&& r2.readable(t, dst as int)
            &&& r2.read(t, dst as int) == r.read(t, src as int)
        }),
{
    crate::memory::lemma_write_keeps_wf(
        r,
        text as int,
        ValueModel::String(display(r.read(t, src as int))),
    );
    if t == RegisterType::Int {
        crate::memory::lemma_int_text_round_trip(r.ints[src as int]);
    } else if t == RegisterType::Bool {
        crate::memory::lemma_bool_text_round_trip(r.bools[src as int]);
    } else {
        crate::memory::lemma_char_text_round_trip(r.chars[src as int]);
    }
}

} // verus!
