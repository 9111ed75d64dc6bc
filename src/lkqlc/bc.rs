//! The LuaJIT bytecode format and its encoder.
//!
//! A dump is a file header followed by the function prototypes, children
//! before their parents, and a closing zero byte.
//!
//! Header: `MAGIC (3 bytes) | VERSION (1 byte) | FLAGS (1 byte)`.
//!
//! Prototype: `SIZE (uleb128) | FLAGS | ARG_COUNT | FRAME_SIZE | UPVAL_COUNT |
//! COMPLEX_CONST_COUNT (uleb128) | NUM_CONST_COUNT (uleb128) | INST_COUNT (uleb128) |
//! INSTRUCTIONS (4 bytes each) | UPVALUES (2 bytes each) | COMPLEX_CONSTS | NUM_CONSTS`,
//! where SIZE counts the bytes that follow it. The dump is stripped, so no
//! debug information follows the counts.
//!
//! Multi-byte words are written in little-endian order, as the header declares
//! (its big-endian flag is clear).
use vstd::prelude::*;
use vstd::string::*;
use vstd::utf8::*;

verus! {

broadcast use vstd::seq_lib::group_seq_properties;

// --- Header values
pub const MAGIC_0: u8 = 0x1B;
pub const MAGIC_1: u8 = 0x4C;
pub const MAGIC_2: u8 = 0x4A;
pub const CUR_VERSION: u8 = 0x02;
pub const MAX_VERSION: u8 = 0x80;

pub const FLAG_H_IS_BIG_ENDIAN: u8 = 0b00000001;
pub const FLAG_H_IS_STRIPPED: u8 = 0b00000010;
pub const FLAG_H_HAS_FFI: u8 = 0b00000100;
pub const FLAG_H_FR2: u8 = 0b00001000;

// --- Prototype flags
pub const FLAG_P_HAS_CHILD: u8 = 0b00000001;
pub const FLAG_P_IS_VARIADIC: u8 = 0b00000010;
pub const FLAG_P_HAS_FFI: u8 = 0b00000100;
pub const FLAG_P_JIT_DISABLED: u8 = 0b00001000;
pub const FLAG_P_HAS_ILOOP: u8 = 0b00010000;

/// The bias added to a jump displacement so that it fits an unsigned 16-bit operand.
pub const JUMP_BIASING: u16 = 0x8000;

// --- Operation codes
pub const ISLT: u8 = 0x00;
pub const ISGE: u8 = 0x01;
pub const ISLE: u8 = 0x02;
pub const ISGT: u8 = 0x03;
pub const ISEQV: u8 = 0x04;
pub const ISNEV: u8 = 0x05;
pub const ISEQS: u8 = 0x06;
pub const ISNES: u8 = 0x07;
pub const ISEQN: u8 = 0x08;
pub const ISNEN: u8 = 0x09;
pub const ISEQP: u8 = 0x0A;
pub const ISNEP: u8 = 0x0B;
pub const ISTC: u8 = 0x0C;
pub const ISFC: u8 = 0x0D;
pub const IST: u8 = 0x0E;
pub const ISF: u8 = 0x0F;
pub const ISTYPE: u8 = 0x10;
pub const ISNUM: u8 = 0x11;
pub const MOV: u8 = 0x12;
pub const NOT: u8 = 0x13;
pub const UNM: u8 = 0x14;
pub const LEN: u8 = 0x15;
pub const ADDVN: u8 = 0x16;
pub const SUBVN: u8 = 0x17;
pub const MULVN: u8 = 0x18;
pub const DIVVN: u8 = 0x19;
pub const MODVN: u8 = 0x1A;
pub const ADDNV: u8 = 0x1B;
pub const SUBNV: u8 = 0x1C;
pub const MULNV: u8 = 0x1D;
pub const DIVNV: u8 = 0x1E;
pub const MODNV: u8 = 0x1F;
pub const ADDVV: u8 = 0x20;
pub const SUBVV: u8 = 0x21;
pub const MULVV: u8 = 0x22;
pub const DIVVV: u8 = 0x23;
pub const MODVV: u8 = 0x24;
pub const POW: u8 = 0x25;
pub const CAT: u8 = 0x26;
pub const KSTR: u8 = 0x27;
pub const KCDATA: u8 = 0x28;
pub const KSHORT: u8 = 0x29;
pub const KNUM: u8 = 0x2A;
pub const KPRI: u8 = 0x2B;
pub const KNIL: u8 = 0x2C;
pub const UGET: u8 = 0x2D;
pub const USETV: u8 = 0x2E;
pub const USETS: u8 = 0x2F;
pub const USETN: u8 = 0x30;
pub const USETP: u8 = 0x31;
pub const UCLO: u8 = 0x32;
pub const FNEW: u8 = 0x33;
pub const TNEW: u8 = 0x34;
pub const TDUP: u8 = 0x35;
pub const GGET: u8 = 0x36;
pub const GSET: u8 = 0x37;
pub const TGETV: u8 = 0x38;
pub const TGETS: u8 = 0x39;
pub const TGETB: u8 = 0x3A;
pub const TGETR: u8 = 0x3B;
pub const TSETV: u8 = 0x3C;
pub const TSETS: u8 = 0x3D;
pub const TSETB: u8 = 0x3E;
pub const TSETM: u8 = 0x3F;
pub const TSETR: u8 = 0x40;
pub const CALLM: u8 = 0x41;
pub const CALL: u8 = 0x42;
pub const CALLMT: u8 = 0x43;
pub const CALLT: u8 = 0x44;
pub const ITERC: u8 = 0x45;
pub const ITERN: u8 = 0x46;
pub const VARG: u8 = 0x47;
pub const ISNEXT: u8 = 0x48;
pub const RETM: u8 = 0x49;
pub const RET: u8 = 0x4A;
pub const RET0: u8 = 0x4B;
pub const RET1: u8 = 0x4C;
pub const FORI: u8 = 0x4D;
pub const JFORI: u8 = 0x4E;
pub const FORL: u8 = 0x4F;
pub const IFORL: u8 = 0x50;
pub const JFORL: u8 = 0x51;
pub const ITERL: u8 = 0x52;
pub const IITERL: u8 = 0x53;
pub const JITERL: u8 = 0x54;
pub const LOOP: u8 = 0x55;
pub const ILOOP: u8 = 0x56;
pub const JLOOP: u8 = 0x57;
pub const JMP: u8 = 0x58;
pub const FUNCF: u8 = 0x59;
pub const IFUNCF: u8 = 0x5A;
pub const JFUNCF: u8 = 0x5B;
pub const FUNCV: u8 = 0x5C;
pub const IFUNCV: u8 = 0x5D;
pub const JFUNCV: u8 = 0x5E;
pub const FUNCC: u8 = 0x5F;
pub const FUNCCW: u8 = 0x60;

// --- Constant tags
pub const BCDUMP_KGC_CHILD: u8 = 0;
pub const BCDUMP_KGC_TAB: u8 = 1;
pub const BCDUMP_KGC_I64: u8 = 2;
pub const BCDUMP_KGC_U64: u8 = 3;
pub const BCDUMP_KGC_COMPLEX: u8 = 4;
pub const BCDUMP_KGC_STR: u8 = 5;

pub const BCDUMP_KTAB_NIL: u8 = 0;
pub const BCDUMP_KTAB_FALSE: u8 = 1;
pub const BCDUMP_KTAB_TRUE: u8 = 2;
pub const BCDUMP_KTAB_INT: u8 = 3;
pub const BCDUMP_KTAB_NUM: u8 = 4;
pub const BCDUMP_KTAB_STR: u8 = 5;

// --- Variable-length integers

/// The unsigned LEB128 form of `v`: seven bits per byte, low group first, the
/// high bit of each byte set when another byte follows.
pub open spec fn uleb128(v: nat) -> Seq<u8>
    decreases v,
{
    if v < 128 {
        seq![v as u8]
    } else {
        seq![(v % 128 + 128) as u8] + uleb128(v / 128)
    }
}

/// Relies on nano_leb128::ULEB128::write_into: it writes the LEB128 groups of
/// the value, low first, and fails only when the buffer is too small, which a
/// 16-byte buffer never is for a 64-bit value.
#[verifier::external_body]
fn uleb128_bytes(value: u64) -> (r: Vec<u8>)
    ensures
        r@ == uleb128(value as nat),
{
    let mut buf = [0u8;16];
    let n = nano_leb128::ULEB128::from(value).write_into(&mut buf).unwrap();
    buf[..n].to_vec()
}

/// Append the unsigned LEB128 form of `value` to `vec`.
pub fn encode_uleb128(value: u64, vec: &mut Vec<u8>)
    ensures
        final(vec)@ == old(vec)@ + uleb128(value as nat),
{
    let mut bytes = uleb128_bytes(value);
    vec.append(&mut bytes);
}

/// The low 32 bits of a 64-bit pattern.
pub open spec fn lo32(bits: u64) -> nat {
    bits as nat % 0x1_0000_0000
}

/// The high 32 bits of a 64-bit pattern.
pub open spec fn hi32(bits: u64) -> nat {
    bits as nat / 0x1_0000_0000
}

/// The two's complement pattern of `v` on 64 bits.
pub open spec fn bits64(v: int) -> nat {
    if v >= 0 { v as nat } else { (v + 0x1_0000_0000_0000_0000) as nat }
}

fn split_bits(bits: u64) -> (r: (u64, u64))
    ensures
        r.0 as nat == lo32(bits),
        r.1 as nat == hi32(bits),
{
    (bits % 0x1_0000_0000, bits / 0x1_0000_0000)
}

fn sign_extend(v: i64) -> (r: u64)
    ensures
        r as nat == bits64(v as int),
{
    if v >= 0 {
        v as u64
    } else {
        let m: u64 = (-(v + 1)) as u64;
        u64::MAX - m
    }
}

// --- The program and its header

/// A whole bytecode dump.
pub struct Program {
    pub header: Header,
    pub prototypes: Vec<Prototype>,
}

/// The bytes of a program: header, prototypes in order, then a zero byte.
pub open spec fn program_bytes(header: Header, prototypes: Seq<Prototype>) -> Seq<u8> {
    header.spec_bytes() + prototypes.map_values(|p: Prototype| p.spec_bytes()).flatten() + seq![0u8]
}

impl Program {
    pub open spec fn wf(&self) -> bool {
        forall|i: int| 0 <= i < self.prototypes@.len() ==> #[trigger] self.prototypes@[i].wf()
    }

    pub open spec fn spec_bytes(&self) -> Seq<u8> {
        program_bytes(self.header, self.prototypes@)
    }

    /// A program with the standard header and no prototype.
    pub fn new() -> (r: Program)
        ensures
            r.header == Header::spec_new(),
            r.prototypes@.len() == 0,
    {
        Program { header: Header::new(), prototypes: Vec::new() }
    }

    /// The bytes of the program.
    pub fn encode(&self) -> (r: Vec<u8>)
        requires
            self.wf(),
        ensures
            r@ == self.spec_bytes(),
    {
        let mut res = self.header.encode();
        let ghost f = |p: Prototype| p.spec_bytes();
        let mut i: usize = 0;
        while i < self.prototypes.len()
            invariant
                forall|p: Prototype| #[trigger] f(p) == p.spec_bytes(),
                self.wf(),
                i <= self.prototypes@.len(),
                res@ == self.header.spec_bytes() + self.prototypes@.take(i as int).map_values(f).flatten(),
            decreases self.prototypes@.len() - i,
        {
            let mut proto_bc = self.prototypes[i].encode();
            proof {
                let s = self.prototypes@.take(i as int).map_values(f);
                assert(self.prototypes@.take(i as int + 1).map_values(f) =~= s.push(f(self.prototypes@[i as int])));
                s.lemma_flatten_push(f(self.prototypes@[i as int]));
            }
            res.append(&mut proto_bc);
            assert(res@ =~= self.header.spec_bytes() + self.prototypes@.take(i as int + 1).map_values(f).flatten());
            i += 1;
        }
        res.push(0);
        proof {
            assert(self.prototypes@.take(i as int) =~= self.prototypes@);
        }
        res
    }
}

/// The first five bytes of an encoded program are its header: reading them
/// back gives exactly the magic, version and flags that were written.
pub proof fn lemma_header_round_trip(header: Header, prototypes: Seq<Prototype>)
    ensures
        program_bytes(header, prototypes).len() >= 5,
        program_bytes(header, prototypes).subrange(0, 5) == header.spec_bytes(),
        program_bytes(header, prototypes).subrange(0, 3) == header.magic@,
        program_bytes(header, prototypes)[3] == header.version,
        program_bytes(header, prototypes)[4] == header.flags,
{
    let b = program_bytes(header, prototypes);
    assert(header.spec_bytes().len() == 5);
    assert(b.subrange(0, 5) =~= header.spec_bytes());
    assert(b.subrange(0, 3) =~= header.magic@);
}

/// The file header of a dump.
#[derive(Debug, Clone, Copy)]
pub struct Header {
    pub magic: [u8; 3],
    pub version: u8,
    pub flags: u8,
}

impl Header {
    pub open spec fn spec_new() -> Header {
        Header {
            magic: [MAGIC_0, MAGIC_1, MAGIC_2],
            version: CUR_VERSION,
            flags: FLAG_H_IS_STRIPPED | FLAG_H_HAS_FFI,
        }
    }

    pub open spec fn spec_bytes(&self) -> Seq<u8> {
        self.magic@ + seq![self.version, self.flags]
    }

    /// The standard header: LuaJIT's magic, the current version, stripped, with FFI.
    pub fn new() -> (r: Header)
        ensures
            r == Header::spec_new(),
    {
        Header {
            magic: [MAGIC_0, MAGIC_1, MAGIC_2],
            version: CUR_VERSION,
            flags: FLAG_H_IS_STRIPPED | FLAG_H_HAS_FFI,
        }
    }

    /// The five bytes of the header.
    pub fn encode(&self) -> (r: Vec<u8>)
        ensures
            r@ == self.spec_bytes(),
    {
        let mut res: Vec<u8> = Vec::new();
        res.push(self.magic[0]);
        res.push(self.magic[1]);
        res.push(self.magic[2]);
        res.push(self.version);
        res.push(self.flags);
        proof {
            assert(res@ =~= self.spec_bytes());
        }
        res
    }

    /// Read a header back from the first five bytes of a dump.
    pub fn decode(bytes: &[u8]) -> (r: Option<Header>)
        ensures
            bytes@.len() < 5 ==> r is None,
            bytes@.len() >= 5 ==> (r matches Some(h) && h.spec_bytes() == bytes@.subrange(0, 5)),
    {
        if bytes.len() < 5 {
            None
        } else {
            let h = Header {
                magic: [bytes[0], bytes[1], bytes[2]],
                version: bytes[3],
                flags: bytes[4],
            };
            proof {
                assert(h.spec_bytes() =~= bytes@.subrange(0, 5));
            }
            Some(h)
        }
    }
}


// --- Function prototypes

/// The two bytes of an upvalue reference, low byte first.
pub open spec fn upval_bytes(u: u16) -> Seq<u8> {
    seq![(u % 256) as u8, (u / 256) as u8]
}

/// One compiled function.
pub struct Prototype {
    pub flags: u8,
    pub arg_count: u8,
    pub frame_size: u8,
    pub instructions: Vec<BCInstruction>,
    pub upval_references: Vec<u16>,
    /// The complex constants in dump order: the one with index `k` stands at
    /// position `len - 1 - k`.
    pub complex_constants: Vec<ComplexConstant>,
    pub numeric_constants: Vec<NumericConstant>,
}

impl Prototype {
    /// The upvalue count is a single byte.
    pub open spec fn wf(&self) -> bool {
        &&& self.upval_references@.len() <= 255
        &&& forall|i: int| 0 <= i < self.complex_constants@.len() ==> #[trigger] self.complex_constants@[i].wf()
    }

    /// The bytes of the prototype after its size prefix.
    pub open spec fn body_bytes(&self) -> Seq<u8> {
        seq![self.flags, self.arg_count, self.frame_size, self.upval_references@.len() as u8]
            + uleb128(self.complex_constants@.len())
            + uleb128(self.numeric_constants@.len())
            + uleb128(self.instructions@.len())
            + self.instructions@.map_values(|i: BCInstruction| i.spec_bytes()).flatten()
            + self.upval_references@.map_values(|u: u16| upval_bytes(u)).flatten()
            + self.complex_constants@.map_values(|c: ComplexConstant| c.spec_bytes()).flatten()
            + self.numeric_constants@.map_values(|n: NumericConstant| n.spec_bytes()).flatten()
    }

    pub open spec fn spec_bytes(&self) -> Seq<u8> {
        uleb128(self.body_bytes().len()) + self.body_bytes()
    }

    /// An empty prototype taking `arg_count` arguments.
    pub fn new(arg_count: u8) -> (r: Prototype)
        ensures
            r.flags == 0,
            r.arg_count == arg_count,
            r.frame_size == 0,
            r.instructions@.len() == 0,
            r.upval_references@.len() == 0,
            r.complex_constants@.len() == 0,
            r.numeric_constants@.len() == 0,
    {
        Prototype {
            flags: 0,
            arg_count,
            frame_size: 0,
            instructions: Vec::new(),
            upval_references: Vec::new(),
            complex_constants: Vec::new(),
            numeric_constants: Vec::new(),
        }
    }

    /// The bytes of the prototype, prefixed with their count.
    pub fn encode(&self) -> (r: Vec<u8>)
        requires
            self.wf(),
        ensures
            r@ == self.spec_bytes(),
    {
        let mut res: Vec<u8> = Vec::new();
        res.push(self.flags);
        res.push(self.arg_count);
        res.push(self.frame_size);
        res.push(self.upval_references.len() as u8);
        encode_uleb128(self.complex_constants.len() as u64, &mut res);
        encode_uleb128(self.numeric_constants.len() as u64, &mut res);
        encode_uleb128(self.instructions.len() as u64, &mut res);
        let ghost head = res@;

        let ghost fi = |i: BCInstruction| i.spec_bytes();
        let mut i: usize = 0;
        while i < self.instructions.len()
            invariant
                forall|i: BCInstruction| #[trigger] fi(i) == i.spec_bytes(),
                self.wf(),
                i <= self.instructions@.len(),
                res@ == head + self.instructions@.take(i as int).map_values(fi).flatten(),
            decreases self.instructions@.len() - i,
        {
            let mut inst_bc = self.instructions[i].encode();
            proof {
                let s = self.instructions@.take(i as int).map_values(fi);
                assert(self.instructions@.take(i as int + 1).map_values(fi) =~= s.push(fi(self.instructions@[i as int])));
                s.lemma_flatten_push(fi(self.instructions@[i as int]));
            }
            res.append(&mut inst_bc);
            assert(res@ =~= head + self.instructions@.take(i as int + 1).map_values(fi).flatten());
            i += 1;
        }
        assert(self.instructions@.take(i as int) =~= self.instructions@);
        let ghost head = res@;

        let ghost fu = |u: u16| upval_bytes(u);
        let mut i: usize = 0;
        while i < self.upval_references.len()
            invariant
                forall|u: u16| #[trigger] fu(u) == upval_bytes(u),
                self.wf(),
                i <= self.upval_references@.len(),
                res@ == head + self.upval_references@.take(i as int).map_values(fu).flatten(),
            decreases self.upval_references@.len() - i,
        {
            let upval = self.upval_references[i];
            proof {
                let s = self.upval_references@.take(i as int).map_values(fu);
                assert(self.upval_references@.take(i as int + 1).map_values(fu) =~= s.push(fu(upval)));
                s.lemma_flatten_push(fu(upval));
            }
            let ghost before = res@;
            res.push((upval % 256) as u8);
            res.push((upval / 256) as u8);
            assert(res@ =~= before + upval_bytes(upval));
            assert(self.upval_references@.take(i as int + 1).map_values(fu).flatten() == self.upval_references@.take(i as int).map_values(fu).flatten() + fu(upval));
            assert(res@ =~= head + self.upval_references@.take(i as int + 1).map_values(fu).flatten());
            i += 1;
        }
        assert(self.upval_references@.take(i as int) =~= self.upval_references@);
        let ghost head = res@;

        let ghost fc = |c: ComplexConstant| c.spec_bytes();
        let mut i: usize = 0;
        while i < self.complex_constants.len()
            invariant
                forall|c: ComplexConstant| #[trigger] fc(c) == c.spec_bytes(),
                self.wf(),
                i <= self.complex_constants@.len(),
                res@ == head + self.complex_constants@.take(i as int).map_values(fc).flatten(),
            decreases self.complex_constants@.len() - i,
        {
            let mut complex_bc = self.complex_constants[i].encode();
            proof {
                let s = self.complex_constants@.take(i as int).map_values(fc);
                assert(self.complex_constants@.take(i as int + 1).map_values(fc) =~= s.push(fc(self.complex_constants@[i as int])));
                s.lemma_flatten_push(fc(self.complex_constants@[i as int]));
            }
            res.append(&mut complex_bc);
            assert(res@ =~= head + self.complex_constants@.take(i as int + 1).map_values(fc).flatten());
            i += 1;
        }
        assert(self.complex_constants@.take(i as int) =~= self.complex_constants@);
        let ghost head = res@;

        let ghost fnum = |n: NumericConstant| n.spec_bytes();
        let mut i: usize = 0;
        while i < self.numeric_constants.len()
            invariant
                forall|n: NumericConstant| #[trigger] fnum(n) == n.spec_bytes(),
                self.wf(),
                i <= self.numeric_constants@.len(),
                res@ == head + self.numeric_constants@.take(i as int).map_values(fnum).flatten(),
            decreases self.numeric_constants@.len() - i,
        {
            let mut numeric_bc = self.numeric_constants[i].encode();
            proof {
                let s = self.numeric_constants@.take(i as int).map_values(fnum);
                assert(self.numeric_constants@.take(i as int + 1).map_values(fnum) =~= s.push(fnum(self.numeric_constants@[i as int])));
                s.lemma_flatten_push(fnum(self.numeric_constants@[i as int]));
            }
            res.append(&mut numeric_bc);
            assert(res@ =~= head + self.numeric_constants@.take(i as int + 1).map_values(fnum).flatten());
            i += 1;
        }
        assert(self.numeric_constants@.take(i as int) =~= self.numeric_constants@);
        assert(res@ =~= self.body_bytes());

        let mut out: Vec<u8> = Vec::new();
        encode_uleb128(res.len() as u64, &mut out);
        out.append(&mut res);
        out
    }
}

// --- Instructions

/// A finished instruction, in one of the two operand layouts.
#[derive(Debug, Clone, Copy, PartialEq, Eq, Structural)]
pub enum BCInstruction {
    Abc(BCInstABC),
    Ad(BCInstAD),
}

impl BCInstruction {
    pub open spec fn spec_bytes(&self) -> Seq<u8> {
        match self {
            BCInstruction::Abc(abc) => abc.spec_bytes(),
            BCInstruction::Ad(ad) => ad.spec_bytes(),
        }
    }

    /// The four bytes of the instruction.
    pub fn encode(&self) -> (r: Vec<u8>)
        ensures
            r@ == self.spec_bytes(),
    {
        match self {
            BCInstruction::Abc(abc) => abc.encode(),
            BCInstruction::Ad(ad) => ad.encode(),
        }
    }
}

/// An `OP A B C` instruction.
#[derive(Debug, Clone, Copy, PartialEq, Eq, Structural)]
pub struct BCInstABC {
    pub op_code: u8,
    pub a: u8,
    pub b: u8,
    pub c: u8,
}

impl BCInstABC {
    /// The word `op | a << 8 | c << 16 | b << 24`, low byte first.
    pub open spec fn spec_bytes(&self) -> Seq<u8> {
        seq![self.op_code, self.a, self.c, self.b]
    }

    pub fn new(op_code: u8, a: u8, b: u8, c: u8) -> (r: BCInstABC)
        ensures
            r == (BCInstABC { op_code, a, b, c }),
    {
        BCInstABC { op_code, a, b, c }
    }

    /// The same instruction, as an element of an instruction list.
    pub fn emit(op_code: u8, a: u8, b: u8, c: u8) -> (r: BCInstruction)
        ensures
            r == BCInstruction::Abc(BCInstABC { op_code, a, b, c }),
    {
        BCInstruction::Abc(BCInstABC::new(op_code, a, b, c))
    }

    pub fn encode(&self) -> (r: Vec<u8>)
        ensures
            r@ == self.spec_bytes(),
    {
        let mut res: Vec<u8> = Vec::new();
        res.push(self.op_code);
        res.push(self.a);
        res.push(self.c);
        res.push(self.b);
        assert(res@ =~= self.spec_bytes());
        res
    }
}

/// An `OP A D` instruction.
#[derive(Debug, Clone, Copy, PartialEq, Eq, Structural)]
pub struct BCInstAD {
    pub op_code: u8,
    pub a: u8,
    pub d: u16,
}

impl BCInstAD {
    /// The word `op | a << 8 | d << 16`, low byte first.
    pub open spec fn spec_bytes(&self) -> Seq<u8> {
        seq![self.op_code, self.a, (self.d % 256) as u8, (self.d / 256) as u8]
    }

    pub fn new(op_code: u8, a: u8, d: u16) -> (r: BCInstAD)
        ensures
            r == (BCInstAD { op_code, a, d }),
    {
        BCInstAD { op_code, a, d }
    }

    /// The same instruction, as an element of an instruction list.
    pub fn emit(op_code: u8, a: u8, d: u16) -> (r: BCInstruction)
        ensures
            r == BCInstruction::Ad(BCInstAD { op_code, a, d }),
    {
        BCInstruction::Ad(BCInstAD::new(op_code, a, d))
    }

    pub fn encode(&self) -> (r: Vec<u8>)
        ensures
            r@ == self.spec_bytes(),
    {
        let mut res: Vec<u8> = Vec::new();
        res.push(self.op_code);
        res.push(self.a);
        res.push((self.d % 256) as u8);
        res.push((self.d / 256) as u8);
        assert(res@ =~= self.spec_bytes());
        res
    }
}


// --- Constants

/// The longest string LuaJIT accepts.
pub const MAX_STR_LEN: usize = 0x7fffff00;

/// A constant of the complex pool.
pub enum ComplexConstant {
    String(KStr),
    Table(KTable),
    Complex(KComplex),
    I64(i64),
    U64(u64),
    Child,
}

impl ComplexConstant {
    pub open spec fn wf(&self) -> bool {
        match self {
            ComplexConstant::String(k) => k.wf(),
            ComplexConstant::Table(t) => t.wf(),
            _ => true,
        }
    }

    /// A tag followed by the data. For a string the tag also carries its length:
    /// it is `BCDUMP_KGC_STR + len`.
    pub open spec fn spec_bytes(&self) -> Seq<u8> {
        match self {
            ComplexConstant::String(k) => uleb128((k.content@.len() + BCDUMP_KGC_STR) as nat) + k.content@,
            ComplexConstant::Table(t) => seq![BCDUMP_KGC_TAB] + t.spec_bytes(),
            ComplexConstant::Complex(c) => seq![BCDUMP_KGC_COMPLEX] + c.spec_bytes(),
            ComplexConstant::I64(v) => seq![BCDUMP_KGC_I64] + uleb128(lo32(bits64(*v as int) as u64))
                + uleb128(hi32(bits64(*v as int) as u64)),
            ComplexConstant::U64(v) => seq![BCDUMP_KGC_U64] + uleb128(lo32(*v)) + uleb128(hi32(*v)),
            ComplexConstant::Child => seq![BCDUMP_KGC_CHILD],
        }
    }

    pub fn encode(&self) -> (r: Vec<u8>)
        requires
            self.wf(),
        ensures
            r@ == self.spec_bytes(),
    {
        let mut res: Vec<u8> = Vec::new();
        match self {
            ComplexConstant::String(kstr) => {
                encode_uleb128(kstr.content.len() as u64 + BCDUMP_KGC_STR as u64, &mut res);
                let mut str_bc = kstr.encode();
                res.append(&mut str_bc);
            },
            ComplexConstant::Table(ktable) => {
                res.push(BCDUMP_KGC_TAB);
                let mut table_bc = ktable.encode();
                res.append(&mut table_bc);
            },
            ComplexConstant::Complex(kcomplex) => {
                res.push(BCDUMP_KGC_COMPLEX);
                let mut complex_bc = kcomplex.encode();
                res.append(&mut complex_bc);
            },
            ComplexConstant::I64(v) => {
                res.push(BCDUMP_KGC_I64);
                let (lo, hi) = split_bits(sign_extend(*v));
                encode_uleb128(lo, &mut res);
                encode_uleb128(hi, &mut res);
            },
            ComplexConstant::U64(v) => {
                res.push(BCDUMP_KGC_U64);
                let (lo, hi) = split_bits(*v);
                encode_uleb128(lo, &mut res);
                encode_uleb128(hi, &mut res);
            },
            ComplexConstant::Child => {
                res.push(BCDUMP_KGC_CHILD);
            },
        }
        assert(res@ =~= self.spec_bytes());
        res
    }
}

/// Relies on std's String::from_utf8: it succeeds exactly on valid UTF-8, and
/// then the string holds the decoded characters.
#[verifier::external_body]
fn string_from_utf8(bytes: Vec<u8>) -> (r: Option<String>)
    ensures
        r is Some <==> valid_utf8(bytes@),
        r matches Some(s) ==> s@ == decode_utf8(bytes@),
{
    String::from_utf8(bytes).ok()
}

/// A string constant, as its UTF-8 bytes.
pub struct KStr {
    pub content: Vec<u8>,
}

impl KStr {
    pub open spec fn wf(&self) -> bool {
        self.content@.len() <= MAX_STR_LEN
    }

    pub fn new(value: String) -> (r: KStr)
        ensures
            r.content@ == encode_utf8(value@),
    {
        KStr { content: value.as_str().as_bytes_vec() }
    }

    /// The string, or the text `INVALID UTF_8 STRING` when the bytes are not UTF-8.
    pub fn decode(&self) -> (r: String)
        ensures
            valid_utf8(self.content@) ==> r@ == decode_utf8(self.content@),
            !valid_utf8(self.content@) ==> r@ == "INVALID UTF_8 STRING"@,
    {
        match string_from_utf8(self.content.clone()) {
            Some(s) => s,
            None => String::from_str("INVALID UTF_8 STRING"),
        }
    }

    pub fn encode(&self) -> (r: Vec<u8>)
        ensures
            r@ == self.content@,
    {
        self.content.clone()
    }
}

/// A table constant: an array part and a hash part, each entry a small constant.
/// The hash part is kept as a list of pairs in insertion order.
pub struct KTable {
    pub array: Vec<TableItem>,
    pub map: Vec<(TableItem, TableItem)>,
}

/// The bytes of a key and value pair of a table.
pub open spec fn pair_bytes(kv: (TableItem, TableItem)) -> Seq<u8> {
    kv.0.spec_bytes() + kv.1.spec_bytes()
}

impl KTable {
    /// Every entry is well formed, and the keys of the hash part are distinct.
    pub open spec fn wf(&self) -> bool {
        &&& forall|i: int| 0 <= i < self.array@.len() ==> #[trigger] self.array@[i].wf()
        &&& forall|i: int| 0 <= i < self.map@.len() ==> #[trigger] self.map@[i].0.wf() && self.map@[i].1.wf()
        &&& forall|i: int, j: int| 0 <= i < j < self.map@.len() ==> (#[trigger] self.map@[i]).0 != (#[trigger] self.map@[j]).0
    }

    pub open spec fn spec_bytes(&self) -> Seq<u8> {
        uleb128(self.array@.len()) + uleb128(self.map@.len())
            + self.array@.map_values(|t: TableItem| t.spec_bytes()).flatten()
            + self.map@.map_values(|kv: (TableItem, TableItem)| pair_bytes(kv)).flatten()
    }

    pub fn new() -> (r: KTable)
        ensures
            r.array@.len() == 0,
            r.map@.len() == 0,
    {
        KTable { array: Vec::new(), map: Vec::new() }
    }

    /// The counts of both parts, then the array entries, then each key followed by its value.
    pub fn encode(&self) -> (r: Vec<u8>)
        requires
            self.wf(),
        ensures
            r@ == self.spec_bytes(),
    {
        let mut res: Vec<u8> = Vec::new();
        encode_uleb128(self.array.len() as u64, &mut res);
        encode_uleb128(self.map.len() as u64, &mut res);
        let ghost head = res@;

        let ghost fa = |t: TableItem| t.spec_bytes();
        let mut i: usize = 0;
        while i < self.array.len()
            invariant
                forall|t: TableItem| #[trigger] fa(t) == t.spec_bytes(),
                self.wf(),
                i <= self.array@.len(),
                res@ == head + self.array@.take(i as int).map_values(fa).flatten(),
            decreases self.array@.len() - i,
        {
            let mut elem_bc = self.array[i].encode();
            proof {
                let s = self.array@.take(i as int).map_values(fa);
                assert(self.array@.take(i as int + 1).map_values(fa) =~= s.push(fa(self.array@[i as int])));
                s.lemma_flatten_push(fa(self.array@[i as int]));
            }
            res.append(&mut elem_bc);
            assert(res@ =~= head + self.array@.take(i as int + 1).map_values(fa).flatten());
            i += 1;
        }
        assert(self.array@.take(i as int) =~= self.array@);
        let ghost head = res@;

        let ghost fm = |kv: (TableItem, TableItem)| pair_bytes(kv);
        let mut i: usize = 0;
        while i < self.map.len()
            invariant
                forall|kv: (TableItem, TableItem)| #[trigger] fm(kv) == pair_bytes(kv),
                self.wf(),
                i <= self.map@.len(),
                res@ == head + self.map@.take(i as int).map_values(fm).flatten(),
            decreases self.map@.len() - i,
        {
            let mut key_bc = self.map[i].0.encode();
            let mut val_bc = self.map[i].1.encode();
            proof {
                let s = self.map@.take(i as int).map_values(fm);
                assert(self.map@.take(i as int + 1).map_values(fm) =~= s.push(fm(self.map@[i as int])));
                s.lemma_flatten_push(fm(self.map@[i as int]));
            }
            res.append(&mut key_bc);
            res.append(&mut val_bc);
            assert(res@ =~= head + self.map@.take(i as int + 1).map_values(fm).flatten());
            i += 1;
        }
        assert(self.map@.take(i as int) =~= self.map@);
        assert(res@ =~= self.spec_bytes());
        res
    }
}

/// An entry of a table constant.
pub enum TableItem {
    String(KStr),
    Int(i32),
    Num(KNum),
    True,
    False,
    Nil,
}

impl TableItem {
    pub open spec fn wf(&self) -> bool {
        match self {
            TableItem::String(k) => k.wf(),
            _ => true,
        }
    }

    /// A tag followed by the data; for a string the tag is `BCDUMP_KTAB_STR + len`.
    pub open spec fn spec_bytes(&self) -> Seq<u8> {
        match self {
            TableItem::String(k) => uleb128((k.content@.len() + BCDUMP_KTAB_STR) as nat) + k.content@,
            TableItem::Int(v) => seq![BCDUMP_KTAB_INT] + uleb128(bits64(*v as int)),
            TableItem::Num(n) => seq![BCDUMP_KTAB_NUM] + n.spec_bytes(),
            TableItem::True => seq![BCDUMP_KTAB_TRUE],
            TableItem::False => seq![BCDUMP_KTAB_FALSE],
            TableItem::Nil => seq![BCDUMP_KTAB_NIL],
        }
    }

    pub fn encode(&self) -> (r: Vec<u8>)
        requires
            self.wf(),
        ensures
            r@ == self.spec_bytes(),
    {
        let mut res: Vec<u8> = Vec::new();
        match self {
            TableItem::String(kstr) => {
                encode_uleb128(kstr.content.len() as u64 + BCDUMP_KTAB_STR as u64, &mut res);
                let mut str_bc = kstr.encode();
                res.append(&mut str_bc);
            },
            TableItem::Int(v) => {
                res.push(BCDUMP_KTAB_INT);
                encode_uleb128(sign_extend(*v as i64), &mut res);
            },
            TableItem::Num(knum) => {
                res.push(BCDUMP_KTAB_NUM);
                let mut num_bc = knum.encode();
                res.append(&mut num_bc);
            },
            TableItem::True => {
                res.push(BCDUMP_KTAB_TRUE);
            },
            TableItem::False => {
                res.push(BCDUMP_KTAB_FALSE);
            },
            TableItem::Nil => {
                res.push(BCDUMP_KTAB_NIL);
            },
        }
        assert(res@ =~= self.spec_bytes());
        res
    }
}

/// A floating-point constant, held as its IEEE 754 bit pattern.
pub struct KNum {
    pub bits: u64,
}

impl KNum {
    /// The low then the high 32 bits, each as LEB128.
    pub open spec fn spec_bytes(&self) -> Seq<u8> {
        uleb128(lo32(self.bits)) + uleb128(hi32(self.bits))
    }

    /// The form used in the numeric pool: the low half shifted left with its
    /// lowest bit set (which marks a float), then the high half.
    pub open spec fn spec_bytes_33(&self) -> Seq<u8> {
        uleb128(lo32(self.bits) * 2 + 1) + uleb128(hi32(self.bits))
    }

    /// The constant whose bit pattern is `bits` (what `f64::to_bits` gives).
    pub fn new(bits: u64) -> (r: KNum)
        ensures
            r.bits == bits,
    {
        KNum { bits }
    }

    pub fn encode(&self) -> (r: Vec<u8>)
        ensures
            r@ == self.spec_bytes(),
    {
        let (lo, hi) = split_bits(self.bits);
        let mut res: Vec<u8> = Vec::new();
        encode_uleb128(lo, &mut res);
        encode_uleb128(hi, &mut res);
        res
    }

    pub fn encode_33bits(&self) -> (r: Vec<u8>)
        ensures
            r@ == self.spec_bytes_33(),
    {
        let (lo, hi) = split_bits(self.bits);
        let mut res: Vec<u8> = Vec::new();
        encode_uleb128(lo * 2 + 1, &mut res);
        encode_uleb128(hi, &mut res);
        res
    }
}

/// A complex number constant, each part held as a 64-bit pattern.
pub struct KComplex {
    pub number: u64,
    pub imaginary: u64,
}

impl KComplex {
    /// Four LEB128 words: low and high half of the real part, then of the imaginary part.
    pub open spec fn spec_bytes(&self) -> Seq<u8> {
        uleb128(lo32(self.number)) + uleb128(hi32(self.number)) + uleb128(lo32(self.imaginary))
            + uleb128(hi32(self.imaginary))
    }

    pub fn encode(&self) -> (r: Vec<u8>)
        ensures
            r@ == self.spec_bytes(),
    {
        let (lo, hi) = split_bits(self.number);
        let (ilo, ihi) = split_bits(self.imaginary);
        let mut res: Vec<u8> = Vec::new();
        encode_uleb128(lo, &mut res);
        encode_uleb128(hi, &mut res);
        encode_uleb128(ilo, &mut res);
        encode_uleb128(ihi, &mut res);
        res
    }
}

/// A constant of the numeric pool.
pub enum NumericConstant {
    Int(i32),
    Num(KNum),
}

impl NumericConstant {
    /// An integer is written doubled (lowest bit clear) on 64 bits; a float as
    /// in `KNum::spec_bytes_33`.
    pub open spec fn spec_bytes(&self) -> Seq<u8> {
        match self {
            NumericConstant::Int(v) => uleb128((bits64(*v as int) * 2) % 0x1_0000_0000_0000_0000),
            NumericConstant::Num(k) => k.spec_bytes_33(),
        }
    }

    pub fn encode(&self) -> (r: Vec<u8>)
        ensures
            r@ == self.spec_bytes(),
    {
        match self {
            NumericConstant::Int(v) => {
                let mut res: Vec<u8> = Vec::new();
                let bits = sign_extend(*v as i64);
                encode_uleb128((bits % 0x8000_0000_0000_0000) * 2, &mut res);
                res
            },
            NumericConstant::Num(knum) => knum.encode_33bits(),
        }
    }
}

} // verus!
