use vstd::prelude::*;

use crate::span::Span;
use crate::text::{owned, same_text};

verus! {

/// Largest number of entries a constant pool may hold: operands address
/// constants with 16-bit indices.
pub const MAX_CONSTANTS: usize = 65535;

/// The kind of value a global slot is declared to hold.
#[derive(Debug, Clone, Copy, PartialEq, Eq, Structural)]
pub enum GlobalValueKind {
    Int,
    Float,
    Bool,
    String,
    Tensor,
    Function,
}

impl GlobalValueKind {
    /// The byte that stands for this kind in a `.mubc` payload.
    pub open spec fn spec_tag(self) -> u8 {
        match self {
            GlobalValueKind::Int => 0,
            GlobalValueKind::Float => 1,
            GlobalValueKind::Bool => 2,
            GlobalValueKind::String => 3,
            GlobalValueKind::Tensor => 4,
            GlobalValueKind::Function => 5,
        }
    }

    pub fn tag(self) -> (t: u8)
        ensures
            t == self.spec_tag(),
    {
        match self {
            GlobalValueKind::Int => 0,
            GlobalValueKind::Float => 1,
            GlobalValueKind::Bool => 2,
            GlobalValueKind::String => 3,
            GlobalValueKind::Tensor => 4,
            GlobalValueKind::Function => 5,
        }
    }

    /// The kind whose tag is `tag`, if any.
    pub fn from_tag(tag: u8) -> (r: Option<GlobalValueKind>)
        ensures
            r == (if tag <= 5 { Some(kind_of_tag(tag)) } else { None::<GlobalValueKind> }),
            r matches Some(k) ==> k.spec_tag() == tag,
    {
        match tag {
            0 => Some(GlobalValueKind::Int),
            1 => Some(GlobalValueKind::Float),
            2 => Some(GlobalValueKind::Bool),
            3 => Some(GlobalValueKind::String),
            4 => Some(GlobalValueKind::Tensor),
            5 => Some(GlobalValueKind::Function),
            _ => None,
        }
    }
}

/// The kind a tag byte from 0 to 5 stands for.
pub open spec fn kind_of_tag(tag: u8) -> GlobalValueKind {
    if tag == 0 {
        GlobalValueKind::Int
    } else if tag == 1 {
        GlobalValueKind::Float
    } else if tag == 2 {
        GlobalValueKind::Bool
    } else if tag == 3 {
        GlobalValueKind::String
    } else if tag == 4 {
        GlobalValueKind::Tensor
    } else {
        GlobalValueKind::Function
    }
}

/// A named global slot of a module.
#[derive(Debug, Clone)]
pub struct GlobalSpec {
    pub name: String,
    pub kind: GlobalValueKind,
}

impl PartialEq for GlobalSpec {
    fn eq(&self, other: &GlobalSpec) -> (r: bool) {
        self.name == other.name && self.kind == other.kind
    }
}

impl Eq for GlobalSpec {

}

impl vstd::std_specs::cmp::PartialEqSpecImpl for GlobalSpec {
    open spec fn obeys_eq_spec() -> bool {
        true
    }

    open spec fn eq_spec(&self, other: &GlobalSpec) -> bool {
        self.name@ == other.name@ && self.kind == other.kind
    }
}

/// A literal in a constant pool. Floating-point literals are held as their
/// IEEE-754 bit pattern, which is also what the `.mubc` format stores, so
/// every payload (NaN included) survives a round trip bit for bit.
#[derive(Debug, Clone)]
pub enum Constant {
    Int(i64),
    Float(u64),
    Bool(bool),
    String(String),
    Function(usize),
    Nil,
}

/// The value of a constant, with text taken by its characters.
pub enum ConstantModel {
    Int(i64),
    Float(u64),
    Bool(bool),
    Str(Seq<char>),
    Function(usize),
    Nil,
}

impl View for Constant {
    type V = ConstantModel;

    open spec fn view(&self) -> ConstantModel {
        match self {
            Constant::Int(v) => ConstantModel::Int(*v),
            Constant::Float(bits) => ConstantModel::Float(*bits),
            Constant::Bool(b) => ConstantModel::Bool(*b),
            Constant::String(s) => ConstantModel::Str(s@),
            Constant::Function(id) => ConstantModel::Function(*id),
            Constant::Nil => ConstantModel::Nil,
        }
    }
}

/// Whether two constants are the same literal (floats compared by bits).
pub fn same_constant(a: &Constant, b: &Constant) -> (r: bool)
    ensures
        r == (a@ == b@),
{
    match (a, b) {
        (Constant::Int(x), Constant::Int(y)) => *x == *y,
        (Constant::Float(x), Constant::Float(y)) => *x == *y,
        (Constant::Bool(x), Constant::Bool(y)) => *x == *y,
        (Constant::String(x), Constant::String(y)) => *x == *y,
        (Constant::Function(x), Constant::Function(y)) => *x == *y,
        (Constant::Nil, Constant::Nil) => true,
        _ => false,
    }
}

/// The instruction set of the virtual machine.
#[derive(Debug, Clone, Copy, PartialEq, Eq, Structural)]
pub enum OpCode {
    Constant,
    Nil,
    True,
    False,
    Pop,
    GetLocal,
    SetLocal,
    DefineGlobal,
    GetGlobal,
    SetGlobal,
    Add,
    Subtract,
    Multiply,
    Divide,
    Negate,
    Not,
    Equal,
    Greater,
    Less,
    JumpIfFalse,
    Jump,
    Loop,
    Call,
    Return,
}

/// The opcode a byte stands for; bytes from 24 on stand for none.
pub open spec fn decode_op(byte: u8) -> Option<OpCode> {
    if byte == 0 {
        Some(OpCode::Constant)
    } else if byte == 1 {
        Some(OpCode::Nil)
    } else if byte == 2 {
        Some(OpCode::True)
    } else if byte == 3 {
        Some(OpCode::False)
    } else if byte == 4 {
        Some(OpCode::Pop)
    } else if byte == 5 {
        Some(OpCode::GetLocal)
    } else if byte == 6 {
        Some(OpCode::SetLocal)
    } else if byte == 7 {
        Some(OpCode::DefineGlobal)
    } else if byte == 8 {
        Some(OpCode::GetGlobal)
    } else if byte == 9 {
        Some(OpCode::SetGlobal)
    } else if byte == 10 {
        Some(OpCode::Add)
    } else if byte == 11 {
        Some(OpCode::Subtract)
    } else if byte == 12 {
        Some(OpCode::Multiply)
    } else if byte == 13 {
        Some(OpCode::Divide)
    } else if byte == 14 {
        Some(OpCode::Negate)
    } else if byte == 15 {
        Some(OpCode::Not)
    } else if byte == 16 {
        Some(OpCode::Equal)
    } else if byte == 17 {
        Some(OpCode::Greater)
    } else if byte == 18 {
        Some(OpCode::Less)
    } else if byte == 19 {
        Some(OpCode::JumpIfFalse)
    } else if byte == 20 {
        Some(OpCode::Jump)
    } else if byte == 21 {
        Some(OpCode::Loop)
    } else if byte == 22 {
        Some(OpCode::Call)
    } else if byte == 23 {
        Some(OpCode::Return)
    } else {
        None
    }
}

impl OpCode {
    /// The byte that encodes this opcode.
    pub open spec fn spec_byte(self) -> u8 {
        match self {
            OpCode::Constant => 0,
            OpCode::Nil => 1,
            OpCode::True => 2,
            OpCode::False => 3,
            OpCode::Pop => 4,
            OpCode::GetLocal => 5,
            OpCode::SetLocal => 6,
            OpCode::DefineGlobal => 7,
            OpCode::GetGlobal => 8,
            OpCode::SetGlobal => 9,
            OpCode::Add => 10,
            OpCode::Subtract => 11,
            OpCode::Multiply => 12,
            OpCode::Divide => 13,
            OpCode::Negate => 14,
            OpCode::Not => 15,
            OpCode::Equal => 16,
            OpCode::Greater => 17,
            OpCode::Less => 18,
            OpCode::JumpIfFalse => 19,
            OpCode::Jump => 20,
            OpCode::Loop => 21,
            OpCode::Call => 22,
            OpCode::Return => 23,
        }
    }

    /// Bytes an instruction with this opcode takes, operands included.
    pub open spec fn spec_width(self) -> nat {
        match self {
            OpCode::Constant | OpCode::GetLocal | OpCode::SetLocal | OpCode::DefineGlobal
            | OpCode::GetGlobal | OpCode::SetGlobal | OpCode::JumpIfFalse | OpCode::Jump
            | OpCode::Loop => 3,
            OpCode::Call => 2,
            _ => 1,
        }
    }

    pub fn to_byte(self) -> (b: u8)
        ensures
            b == self.spec_byte(),
            decode_op(b) == Some(self),
    {
        match self {
            OpCode::Constant => 0,
            OpCode::Nil => 1,
            OpCode::True => 2,
            OpCode::False => 3,
            OpCode::Pop => 4,
            OpCode::GetLocal => 5,
            OpCode::SetLocal => 6,
            OpCode::DefineGlobal => 7,
            OpCode::GetGlobal => 8,
            OpCode::SetGlobal => 9,
            OpCode::Add => 10,
            OpCode::Subtract => 11,
            OpCode::Multiply => 12,
            OpCode::Divide => 13,
            OpCode::Negate => 14,
            OpCode::Not => 15,
            OpCode::Equal => 16,
            OpCode::Greater => 17,
            OpCode::Less => 18,
            OpCode::JumpIfFalse => 19,
            OpCode::Jump => 20,
            OpCode::Loop => 21,
            OpCode::Call => 22,
            OpCode::Return => 23,
        }
    }

    pub fn from_byte(byte: u8) -> (r: Option<OpCode>)
        ensures
            r == decode_op(byte),
            r matches Some(op) ==> op.spec_byte() == byte,
    {
        match byte {
            0 => Some(OpCode::Constant),
            1 => Some(OpCode::Nil),
            2 => Some(OpCode::True),
            3 => Some(OpCode::False),
            4 => Some(OpCode::Pop),
            5 => Some(OpCode::GetLocal),
            6 => Some(OpCode::SetLocal),
            7 => Some(OpCode::DefineGlobal),
            8 => Some(OpCode::GetGlobal),
            9 => Some(OpCode::SetGlobal),
            10 => Some(OpCode::Add),
            11 => Some(OpCode::Subtract),
            12 => Some(OpCode::Multiply),
            13 => Some(OpCode::Divide),
            14 => Some(OpCode::Negate),
            15 => Some(OpCode::Not),
            16 => Some(OpCode::Equal),
            17 => Some(OpCode::Greater),
            18 => Some(OpCode::Less),
            19 => Some(OpCode::JumpIfFalse),
            20 => Some(OpCode::Jump),
            21 => Some(OpCode::Loop),
            22 => Some(OpCode::Call),
            23 => Some(OpCode::Return),
            _ => None,
        }
    }

    pub fn width(self) -> (w: usize)
        ensures
            w == self.spec_width(),
    {
        match self {
            OpCode::Constant | OpCode::GetLocal | OpCode::SetLocal | OpCode::DefineGlobal
            | OpCode::GetGlobal | OpCode::SetGlobal | OpCode::JumpIfFalse | OpCode::Jump
            | OpCode::Loop => 3,
            OpCode::Call => 2,
            _ => 1,
        }
    }

    /// The opcode's name, as diagnostics write it.
    pub open spec fn spec_name(self) -> Seq<char> {
        match self {
            OpCode::Constant => "Constant"@,
            OpCode::Nil => "Nil"@,
            OpCode::True => "True"@,
            OpCode::False => "False"@,
            OpCode::Pop => "Pop"@,
            OpCode::GetLocal => "GetLocal"@,
            OpCode::SetLocal => "SetLocal"@,
            OpCode::DefineGlobal => "DefineGlobal"@,
            OpCode::GetGlobal => "GetGlobal"@,
            OpCode::SetGlobal => "SetGlobal"@,
            OpCode::Add => "Add"@,
            OpCode::Subtract => "Subtract"@,
            OpCode::Multiply => "Multiply"@,
            OpCode::Divide => "Divide"@,
            OpCode::Negate => "Negate"@,
            OpCode::Not => "Not"@,
            OpCode::Equal => "Equal"@,
            OpCode::Greater => "Greater"@,
            OpCode::Less => "Less"@,
            OpCode::JumpIfFalse => "JumpIfFalse"@,
            OpCode::Jump => "Jump"@,
            OpCode::Loop => "Loop"@,
            OpCode::Call => "Call"@,
            OpCode::Return => "Return"@,
        }
    }

    /// The opcode's name as written in diagnostics.
    pub fn name(self) -> (n: &'static str)
        ensures
            n@ == self.spec_name(),
    {
        match self {
            OpCode::Constant => "Constant",
            OpCode::Nil => "Nil",
            OpCode::True => "True",
            OpCode::False => "False",
            OpCode::Pop => "Pop",
            OpCode::GetLocal => "GetLocal",
            OpCode::SetLocal => "SetLocal",
            OpCode::DefineGlobal => "DefineGlobal",
            OpCode::GetGlobal => "GetGlobal",
            OpCode::SetGlobal => "SetGlobal",
            OpCode::Add => "Add",
            OpCode::Subtract => "Subtract",
            OpCode::Multiply => "Multiply",
            OpCode::Divide => "Divide",
            OpCode::Negate => "Negate",
            OpCode::Not => "Not",
            OpCode::Equal => "Equal",
            OpCode::Greater => "Greater",
            OpCode::Less => "Less",
            OpCode::JumpIfFalse => "JumpIfFalse",
            OpCode::Jump => "Jump",
            OpCode::Loop => "Loop",
            OpCode::Call => "Call",
            OpCode::Return => "Return",
        }
    }
}

/// The code, spans and constant pool of a chunk, taken by value.
pub struct ChunkModel {
    pub code: Seq<u8>,
    pub spans: Seq<Span>,
    pub constants: Seq<ConstantModel>,
}

/// Bytecode of one function: each code byte has a span, and operands
/// refer into the constant pool.
#[derive(Debug, Clone)]
pub struct Chunk {
    pub code: Vec<u8>,
    pub spans: Vec<Span>,
    pub constants: Vec<Constant>,
}

pub open spec fn constant_views(cs: Seq<Constant>) -> Seq<ConstantModel> {
    cs.map_values(|c: Constant| c@)
}

impl View for Chunk {
    type V = ChunkModel;

    open spec fn view(&self) -> ChunkModel {
        ChunkModel { code: self.code@, spans: self.spans@, constants: constant_views(self.constants@) }
    }
}

/// Whether `c` occurs among the addressable entries of `pool` before `i`.
pub open spec fn occurs_before(pool: Seq<ConstantModel>, c: ConstantModel, i: int) -> bool {
    exists|j: int| 0 <= j < i && j < pool.len() && pool[j] == c
}

/// The number of pool entries a 16-bit operand can address.
pub open spec fn addressable(pool: Seq<ConstantModel>) -> int {
    if pool.len() < MAX_CONSTANTS { pool.len() as int } else { MAX_CONSTANTS as int }
}

impl Chunk {
    pub fn new() -> (c: Chunk)
        ensures
            c@.code.len() == 0,
            c@.spans.len() == 0,
            c@.constants.len() == 0,
    {
        Chunk { code: Vec::new(), spans: Vec::new(), constants: Vec::new() }
    }

    /// Assembles a chunk, refusing a pool too large for 16-bit operands.
    pub fn from_parts(code: Vec<u8>, spans: Vec<Span>, constants: Vec<Constant>) -> (r: Result<
        Chunk,
        String,
    >)
        ensures
            constants.len() <= MAX_CONSTANTS <==> r is Ok,
            r matches Ok(c) ==> c@ == (ChunkModel {
                code: code@,
                spans: spans@,
                constants: constant_views(constants@),
            }),
            r matches Err(msg) ==> msg@ == "too many constants: maximum is 65535 entries"@,
    {
        if constants.len() > MAX_CONSTANTS {
            return Err(owned("too many constants: maximum is 65535 entries"));
        }
        Ok(Chunk { code, spans, constants })
    }

    pub fn write_op(&mut self, op: OpCode, span: Span)
        ensures
            final(self)@.code == old(self)@.code.push(op.spec_byte()),
            final(self)@.spans == old(self)@.spans.push(span),
            final(self)@.constants == old(self)@.constants,
    {
        self.code.push(op.to_byte());
        self.spans.push(span);
    }

    pub fn write_u8(&mut self, value: u8, span: Span)
        ensures
            final(self)@.code == old(self)@.code.push(value),
            final(self)@.spans == old(self)@.spans.push(span),
            final(self)@.constants == old(self)@.constants,
    {
        self.code.push(value);
        self.spans.push(span);
    }

    /// Writes a little-endian 16-bit operand, one span per byte.
    pub fn write_u16(&mut self, value: u16, span: Span)
        ensures
            final(self)@.code == old(self)@.code + crate::bytes::le16(value),
            final(self)@.spans == old(self)@.spans.push(span).push(span),
            final(self)@.constants == old(self)@.constants,
    {
        self.code.push((value & 0xff) as u8);
        self.spans.push(span);
        self.code.push(((value >> 8u16) & 0xff) as u8);
        self.spans.push(span);
        proof {
            assert(self@.code =~= old(self)@.code + crate::bytes::le16(value));
        }
    }

    /// Index of `constant` in the pool, adding it when no equal literal is
    /// already addressable; fails when the pool is full.
    pub fn add_constant(&mut self, constant: Constant) -> (r: Result<u16, String>)
        ensures
            final(self)@.code == old(self)@.code,
            final(self)@.spans == old(self)@.spans,
            occurs_before(old(self)@.constants, constant@, addressable(old(self)@.constants))
                ==> exists|i: int|
                0 <= i < addressable(old(self)@.constants) && r == Ok::<u16, String>(i as u16)
                    && old(self)@.constants[i] == constant@ && !occurs_before(
                    old(self)@.constants,
                    constant@,
                    i,
                ) && final(self)@.constants == old(self)@.constants,
            !occurs_before(old(self)@.constants, constant@, addressable(old(self)@.constants))
                && old(self)@.constants.len() >= MAX_CONSTANTS ==> final(self)@.constants == old(
                self,
            )@.constants && (r matches Err(msg) && msg@
                == "constant pool overflow: maximum of 65535 entries"@),
            !occurs_before(old(self)@.constants, constant@, addressable(old(self)@.constants))
                && old(self)@.constants.len() < MAX_CONSTANTS ==> r == Ok::<u16, String>(
                old(self)@.constants.len() as u16,
            ) && final(self)@.constants == old(self)@.constants.push(constant@),
    {
        let n = self.constants.len();
        let limit = if n < MAX_CONSTANTS { n } else { MAX_CONSTANTS };
        let mut i: usize = 0;
        while i < limit
            invariant
                i <= limit,
                n == self.constants.len(),
                limit == addressable(constant_views(self.constants@)),
                !occurs_before(constant_views(self.constants@), constant@, i as int),
            decreases limit - i,
        {
            if same_constant(&self.constants[i], &constant) {
                proof {
                    assert(constant_views(self.constants@)[i as int] == constant@);
                }
                return Ok(i as u16);
            }
            proof {
                assert forall|j: int|
                    0 <= j < i + 1 && j < constant_views(self.constants@).len() implies constant_views(
                    self.constants@,
                )[j] != constant@ by {
                    if j < i {
                        assert(!occurs_before(constant_views(self.constants@), constant@, i as int));
                    }
                }
            }
            i = i + 1;
        }
        if n >= MAX_CONSTANTS {
            return Err(owned("constant pool overflow: maximum of 65535 entries"));
        }
        let ghost before = self.constants@;
        self.constants.push(constant);
        proof {
            assert(constant_views(self.constants@) =~= constant_views(before).push(constant@));
        }
        Ok(n as u16)
    }

    /// The span of the byte at `ip`, synthetic past the end.
    pub fn span_at(&self, ip: usize) -> (s: Span)
        ensures
            s == (if ip < self.spans@.len() { self.spans@[ip as int] } else { Span::synthetic() }),
    {
        if ip < self.spans.len() {
            self.spans[ip]
        } else {
            Span::default()
        }
    }
}

impl Default for Chunk {
    fn default() -> (c: Chunk)
        ensures
            c@.code.len() == 0,
            c@.spans.len() == 0,
            c@.constants.len() == 0,
    {
        Chunk::new()
    }
}

/// A function's header and bytecode, taken by value.
pub struct FunctionModel {
    pub name: Seq<char>,
    pub arity: usize,
    pub local_count: usize,
    pub expects_return_value: bool,
    pub chunk: ChunkModel,
}

#[derive(Debug, Clone)]
pub struct FunctionBytecode {
    pub name: String,
    pub arity: usize,
    pub local_count: usize,
    pub expects_return_value: bool,
    pub chunk: Chunk,
}

impl View for FunctionBytecode {
    type V = FunctionModel;

    open spec fn view(&self) -> FunctionModel {
        FunctionModel {
            name: self.name@,
            arity: self.arity,
            local_count: self.local_count,
            expects_return_value: self.expects_return_value,
            chunk: self.chunk@,
        }
    }
}

/// A global slot taken by value.
pub struct GlobalModel {
    pub name: Seq<char>,
    pub kind: GlobalValueKind,
}

impl View for GlobalSpec {
    type V = GlobalModel;

    open spec fn view(&self) -> GlobalModel {
        GlobalModel { name: self.name@, kind: self.kind }
    }
}

/// A whole module taken by value.
pub struct ModuleModel {
    pub functions: Seq<FunctionModel>,
    pub entry_function: usize,
    pub globals: Seq<GlobalModel>,
}

/// A compiled program: its functions, which one runs first, and its globals.
#[derive(Debug, Clone)]
pub struct BytecodeModule {
    pub functions: Vec<FunctionBytecode>,
    pub entry_function: usize,
    pub globals: Vec<GlobalSpec>,
}

pub open spec fn function_views(fs: Seq<FunctionBytecode>) -> Seq<FunctionModel> {
    fs.map_values(|f: FunctionBytecode| f@)
}

pub open spec fn global_views(gs: Seq<GlobalSpec>) -> Seq<GlobalModel> {
    gs.map_values(|g: GlobalSpec| g@)
}

impl View for BytecodeModule {
    type V = ModuleModel;

    open spec fn view(&self) -> ModuleModel {
        ModuleModel {
            functions: function_views(self.functions@),
            entry_function: self.entry_function,
            globals: global_views(self.globals@),
        }
    }
}

/// The sum of `max(local_count, 1)` over functions.
pub open spec fn slot_total(fs: Seq<FunctionModel>) -> nat
    decreases fs.len(),
{
    if fs.len() == 0 {
        0
    } else {
        slot_total(fs.drop_last()) + (if fs.last().local_count >= 1 {
            fs.last().local_count as nat
        } else {
            1
        })
    }
}

impl BytecodeModule {
    pub fn new() -> (m: BytecodeModule)
        ensures
            m@.functions.len() == 0,
            m@.entry_function == 0,
            m@.globals.len() == 0,
    {
        BytecodeModule { functions: Vec::new(), entry_function: 0, globals: Vec::new() }
    }

    /// The kind of the first global named `name`.
    pub fn global_kind(&self, name: &str) -> (r: Option<GlobalValueKind>)
        ensures
            match r {
                Some(k) => exists|i: int|
                    0 <= i < self@.globals.len() && self@.globals[i].name == name@
                        && self@.globals[i].kind == k && forall|j: int|
                        0 <= j < i ==> self@.globals[j].name != name@,
                None => forall|i: int|
                    0 <= i < self@.globals.len() ==> self@.globals[i].name != name@,
            },
    {
        let mut i: usize = 0;
        while i < self.globals.len()
            invariant
                i <= self.globals.len(),
                forall|j: int| 0 <= j < i ==> self@.globals[j].name != name@,
            decreases self.globals.len() - i,
        {
            if same_text(self.globals[i].name.as_str(), name) {
                proof {
                    assert(self@.globals[i as int] == self.globals@[i as int]@);
                }
                return Some(self.globals[i].kind);
            }
            i = i + 1;
        }
        None
    }

    /// Value-stack slots to reserve: `max(local_count, 1)` summed over
    /// functions, at least 16; saturates at `usize::MAX`.
    pub fn estimated_stack_capacity(&self) -> (n: usize)
        ensures
            n == (if slot_total(self@.functions) > usize::MAX {
                usize::MAX as nat
            } else if slot_total(self@.functions) < 16 {
                16
            } else {
                slot_total(self@.functions)
            }),
    {
        let mut total: usize = 0;
        let mut saturated = false;
        let mut i: usize = 0;
        while i < self.functions.len()
            invariant
                i <= self.functions.len(),
                saturated <==> slot_total(function_views(self.functions@).take(i as int)) > usize::MAX,
                !saturated ==> total == slot_total(function_views(self.functions@).take(i as int)),
            decreases self.functions.len() - i,
        {
            proof {
                let fs = function_views(self.functions@);
                assert(fs.take(i + 1).drop_last() =~= fs.take(i as int));
            }
            let slots = if self.functions[i].local_count >= 1 {
                self.functions[i].local_count
            } else {
                1
            };
            if !saturated {
                if total <= usize::MAX - slots {
                    total = total + slots;
                } else {
                    saturated = true;
                }
            }
            i = i + 1;
        }
        proof {
            assert(function_views(self.functions@).take(self.functions.len() as int) =~= function_views(
                self.functions@,
            ));
        }
        if saturated {
            usize::MAX
        } else if total < 16 {
            16
        } else {
            total
        }
    }

    /// Call frames to reserve: one per function, at least four.
    pub fn estimated_frame_capacity(&self) -> (n: usize)
        ensures
            n == (if self.functions.len() < 4 { 4 } else { self.functions.len() }),
    {
        if self.functions.len() < 4 {
            4
        } else {
            self.functions.len()
        }
    }
}

impl Default for BytecodeModule {
    fn default() -> (m: BytecodeModule)
        ensures
            m@.functions.len() == 0,
            m@.entry_function == 0,
            m@.globals.len() == 0,
    {
        BytecodeModule::new()
    }
}

/// Why a `.mubc` payload was refused.
#[derive(Debug, Clone, PartialEq, Eq)]
pub struct BytecodeDecodeError {
    pub message: String,
}

impl BytecodeDecodeError {
    pub fn new(message: String) -> (e: BytecodeDecodeError)
        ensures
            e.message == message,
    {
        BytecodeDecodeError { message }
    }

    /// The message, as the error's text form.
    pub fn describe(&self) -> (s: String)
        ensures
            s@ == self.message@,
    {
        self.message.clone()
    }
}

} // verus!
