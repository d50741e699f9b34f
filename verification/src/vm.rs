//! An interpreter for RISC-V 64-bit (RV64IM) machine code.
use vstd::prelude::*;

verus! {

/// The abstract state of the interpreter.
pub struct Machine {
    pub regs: Seq<u64>,
    pub pc: int,
    pub memory: Seq<u8>,
    pub exit_pc: int,
}

/// An embedded 64-bit RISC-V virtual machine for executing generated machine code.
pub struct RiscvVm {
    pub regs: [u64; 32],
    pub pc: usize,
    pub memory: Vec<u8>,
    pub exit_pc: usize,
}

impl View for RiscvVm {
    type V = Machine;

    open spec fn view(&self) -> Machine {
        Machine { regs: self.regs@, pc: self.pc as int, memory: self.memory@, exit_pc: self.exit_pc as int }
    }
}

pub open spec fn mem_size() -> int {
    4194304int
}

/// The address at which the program returns control to the interpreter.
pub open spec fn exit_address() -> int {
    0xFFFF_0000int
}

// ---------------------------------------------------------------------------
// Instruction fields

pub open spec fn sext_i(word: u32) -> i64 {
    ((word as i32) >> 20u32) as i64
}

pub open spec fn sext_s(word: u32) -> i64 {
    (((((word >> 7u32) & 0x1Fu32) | (((word >> 25u32) & 0x7Fu32) << 5u32)) as i32) << 20u32 >> 20u32) as i64
}

pub open spec fn sext_b(word: u32) -> i64 {
    ((((((word >> 31u32) & 1u32) << 12u32) | (((word >> 7u32) & 1u32) << 11u32)
        | (((word >> 25u32) & 0x3Fu32) << 5u32) | (((word >> 8u32) & 0xFu32) << 1u32)) as i32) << 19u32 >> 19u32) as i64
}

pub open spec fn sext_j(word: u32) -> i64 {
    ((((((word >> 31u32) & 1u32) << 20u32) | (((word >> 12u32) & 0xFFu32) << 12u32)
        | (((word >> 20u32) & 1u32) << 11u32) | (((word >> 21u32) & 0x3FFu32) << 1u32)) as i32) << 11u32 >> 11u32) as i64
}

pub open spec fn sext_u(word: u32) -> i64 {
    ((word & 0xFFFFF000u32) as i32) as i64
}

fn imm_i(word: u32) -> (r: i64)
    ensures
        r == sext_i(word),
{
    ((word as i32) >> 20u32) as i64
}

fn imm_s(word: u32) -> (r: i64)
    ensures
        r == sext_s(word),
{
    let lo = (word >> 7u32) & 0x1Fu32;
    let hi = (word >> 25u32) & 0x7Fu32;
    let imm = (lo | (hi << 5u32)) as i32;
    ((imm << 20u32) >> 20u32) as i64
}

fn imm_b(word: u32) -> (r: i64)
    ensures
        r == sext_b(word),
{
    let imm12 = ((word >> 31u32) & 1u32) << 12u32;
    let imm10_5 = ((word >> 25u32) & 0x3Fu32) << 5u32;
    let imm4_1 = ((word >> 8u32) & 0xFu32) << 1u32;
    let imm11 = ((word >> 7u32) & 1u32) << 11u32;
    let imm = (imm12 | imm11 | imm10_5 | imm4_1) as i32;
    ((imm << 19u32) >> 19u32) as i64
}

fn imm_j(word: u32) -> (r: i64)
    ensures
        r == sext_j(word),
{
    let imm20 = ((word >> 31u32) & 1u32) << 20u32;
    let imm10_1 = ((word >> 21u32) & 0x3FFu32) << 1u32;
    let imm11 = ((word >> 20u32) & 1u32) << 11u32;
    let imm19_12 = ((word >> 12u32) & 0xFFu32) << 12u32;
    let imm = (imm20 | imm19_12 | imm11 | imm10_1) as i32;
    ((imm << 11u32) >> 11u32) as i64
}

// ---------------------------------------------------------------------------
// Arithmetic

/// Signed 64-bit division as RISC-V defines it: truncating, with x/0 = -1
/// and the overflowing quotient MIN/-1 = MIN.
pub open spec fn div_s64(a: i64, b: i64) -> i64 {
    if b == 0 {
        -1i64
    } else if a == i64::MIN && b == -1 {
        i64::MIN
    } else {
        let q = (if a < 0 { -(a as int) } else { a as int }) / (if b < 0 { -(b as int) } else { b as int });
        (if (a < 0) != (b < 0) { -q } else { q }) as i64
    }
}

/// Signed 64-bit remainder as RISC-V defines it: the sign follows the
/// dividend, x%0 = x, and MIN%-1 = 0.
pub open spec fn rem_s64(a: i64, b: i64) -> i64 {
    if b == 0 {
        a
    } else if a == i64::MIN && b == -1 {
        0
    } else {
        (a - div_s64(a, b) * b) as i64
    }
}

pub open spec fn div_s32(a: i32, b: i32) -> i32 {
    if b == 0 {
        -1i32
    } else if a == i32::MIN && b == -1 {
        i32::MIN
    } else {
        let q = (if a < 0 { -(a as int) } else { a as int }) / (if b < 0 { -(b as int) } else { b as int });
        (if (a < 0) != (b < 0) { -q } else { q }) as i32
    }
}

pub open spec fn rem_s32(a: i32, b: i32) -> i32 {
    if b == 0 {
        a
    } else if a == i32::MIN && b == -1 {
        0
    } else {
        (a - div_s32(a, b) * b) as i32
    }
}

fn sdiv64(a: i64, b: i64) -> (r: i64)
    ensures
        r == div_s64(a, b),
{
    if b == 0 {
        -1
    } else if a == i64::MIN && b == -1 {
        i64::MIN
    } else {
        let ua: u64 = if a < 0 { if a == i64::MIN { 0x8000_0000_0000_0000u64 } else { (-a) as u64 } } else { a as u64 };
        let ub: u64 = if b < 0 { if b == i64::MIN { 0x8000_0000_0000_0000u64 } else { (-b) as u64 } } else { b as u64 };
        let q: u64 = ua / ub;
        if (a < 0) != (b < 0) {
            assert(q <= 0x8000_0000_0000_0000u64) by (nonlinear_arith)
                requires q == ua / ub, ua <= 0x8000_0000_0000_0000u64, ub >= 1;
            if q == 0x8000_0000_0000_0000u64 { i64::MIN } else { -(q as i64) }
        } else {
            assert(q <= 0x7FFF_FFFF_FFFF_FFFFu64) by (nonlinear_arith)
                requires q == ua / ub, ua <= 0x8000_0000_0000_0000u64, ub >= 1,
                    ua == 0x8000_0000_0000_0000u64 ==> ub >= 2;
            q as i64
        }
    }
}

fn srem64(a: i64, b: i64) -> (r: i64)
    ensures
        r == rem_s64(a, b),
{
    if b == 0 {
        a
    } else if a == i64::MIN && b == -1 {
        0
    } else {
        let q = sdiv64(a, b);
        assert(-(i64::MAX as int) <= a - q * b <= i64::MAX) by (nonlinear_arith)
            requires
                q == div_s64(a, b),
                b != 0,
                !(a == i64::MIN && b == -1);
        (a as i128 - (q as i128) * (b as i128)) as i64
    }
}

/// The 64-bit register-register operations (opcode 0x33).
pub open spec fn alu64(f3: u32, f7: u32, v1: u64, v2: u64) -> Option<u64> {
    if f3 == 0 && f7 == 0 { Some(v1.wrapping_add(v2)) }
    else if f3 == 0 && f7 == 0x20 { Some(v1.wrapping_sub(v2)) }
    else if f3 == 0 && f7 == 1 { Some(v1.wrapping_mul(v2)) }
    else if f3 == 4 && f7 == 1 { Some(div_s64(v1 as i64, v2 as i64) as u64) }
    else if f3 == 5 && f7 == 1 { Some(if v2 == 0 { u64::MAX } else { v1 / v2 }) }
    else if f3 == 6 && f7 == 1 { Some(rem_s64(v1 as i64, v2 as i64) as u64) }
    else if f3 == 7 && f7 == 1 { Some(if v2 == 0 { v1 } else { v1 % v2 }) }
    else if f3 == 1 && f7 == 0 { Some(v1 << (v2 & 0x3Fu64)) }
    else if f3 == 5 && f7 == 0 { Some(v1 >> (v2 & 0x3Fu64)) }
    else if f3 == 5 && f7 == 0x20 { Some(((v1 as i64) >> (v2 & 0x3Fu64)) as u64) }
    else if f3 == 2 && f7 == 0 { Some(if (v1 as i64) < (v2 as i64) { 1u64 } else { 0u64 }) }
    else if f3 == 3 && f7 == 0 { Some(if v1 < v2 { 1u64 } else { 0u64 }) }
    else if f3 == 4 && f7 == 0 { Some(v1 ^ v2) }
    else if f3 == 6 && f7 == 0 { Some(v1 | v2) }
    else if f3 == 7 && f7 == 0 { Some(v1 & v2) }
    else { None }
}

/// The 32-bit register-register operations (opcode 0x3B), sign-extended to 64 bits.
pub open spec fn alu32(f3: u32, f7: u32, r1: u64, r2: u64) -> Option<u64> {
    let v1 = r1 as i32;
    let v2 = r2 as i32;
    if f3 == 0 && f7 == 0 { Some(v1.wrapping_add(v2) as i64 as u64) }
    else if f3 == 0 && f7 == 0x20 { Some(v1.wrapping_sub(v2) as i64 as u64) }
    else if f3 == 0 && f7 == 1 { Some(v1.wrapping_mul(v2) as i64 as u64) }
    else if f3 == 4 && f7 == 1 { Some(div_s32(v1, v2) as i64 as u64) }
    else if f3 == 5 && f7 == 1 { Some(if v2 as u32 == 0 { u64::MAX } else { ((v1 as u32) / (v2 as u32)) as i32 as i64 as u64 }) }
    else if f3 == 6 && f7 == 1 { Some(rem_s32(v1, v2) as i64 as u64) }
    else if f3 == 7 && f7 == 1 { Some(if v2 as u32 == 0 { v1 as u32 as i32 as i64 as u64 } else { ((v1 as u32) % (v2 as u32)) as i32 as i64 as u64 }) }
    else if f3 == 1 && f7 == 0 { Some((v1 << ((v2 & 0x1Fi32) as u32)) as i64 as u64) }
    else if f3 == 5 && f7 == 0 { Some(((v1 as u32) >> ((v2 & 0x1Fi32) as u32)) as i32 as i64 as u64) }
    else if f3 == 5 && f7 == 0x20 { Some((v1 >> ((v2 & 0x1Fi32) as u32)) as i64 as u64) }
    else { None }
}

/// The 64-bit register-immediate operations (opcode 0x13).
pub open spec fn alu_imm64(f3: u32, word: u32, v1: u64) -> Option<u64> {
    let imm = sext_i(word);
    if f3 == 0 { Some(v1.wrapping_add(imm as u64)) }
    else if f3 == 2 { Some(if (v1 as i64) < imm { 1u64 } else { 0u64 }) }
    else if f3 == 3 { Some(if v1 < (imm as u64) { 1u64 } else { 0u64 }) }
    else if f3 == 4 { Some(v1 ^ (imm as u64)) }
    else if f3 == 6 { Some(v1 | (imm as u64)) }
    else if f3 == 7 { Some(v1 & (imm as u64)) }
    else if f3 == 1 { Some(v1 << ((word >> 20u32) & 0x3Fu32)) }
    else if f3 == 5 {
        let shamt = (word >> 20u32) & 0x3Fu32;
        Some(if (word >> 26u32) & 0x3Fu32 == 0x10u32 { ((v1 as i64) >> shamt) as u64 } else { v1 >> shamt })
    }
    else { None }
}

/// The 32-bit register-immediate operations (opcode 0x1B), sign-extended to 64 bits.
pub open spec fn alu_imm32(f3: u32, word: u32, r1: u64) -> Option<u64> {
    let imm = (word as i32) >> 20u32;
    let v1 = r1 as i32;
    if f3 == 0 { Some(v1.wrapping_add(imm) as i64 as u64) }
    else if f3 == 1 { Some((v1 << ((word >> 20u32) & 0x1Fu32)) as i64 as u64) }
    else if f3 == 5 {
        let shamt = (word >> 20u32) & 0x1Fu32;
        Some(if (word >> 30u32) & 1u32 == 1u32 { (v1 >> shamt) as i64 as u64 } else { ((v1 as u32) >> shamt) as i32 as i64 as u64 })
    }
    else { None }
}

pub open spec fn branch_taken(f3: u32, v1: u64, v2: u64) -> bool {
    if f3 == 0 { v1 == v2 }
    else if f3 == 1 { v1 != v2 }
    else if f3 == 4 { (v1 as i64) < (v2 as i64) }
    else if f3 == 5 { (v1 as i64) >= (v2 as i64) }
    else if f3 == 6 { v1 < v2 }
    else if f3 == 7 { v1 >= v2 }
    else { false }
}

fn exec_alu64(f3: u32, f7: u32, v1: u64, v2: u64) -> (r: Option<u64>)
    ensures
        r == alu64(f3, f7, v1, v2),
{
    let sh: u64 = v2 & 0x3Fu64;
    assert(sh < 64) by (bit_vector) requires sh == v2 & 0x3Fu64;
    if f3 == 0 && f7 == 0 { Some(v1.wrapping_add(v2)) }
    else if f3 == 0 && f7 == 0x20 { Some(v1.wrapping_sub(v2)) }
    else if f3 == 0 && f7 == 1 { Some(v1.wrapping_mul(v2)) }
    else if f3 == 4 && f7 == 1 { Some(sdiv64(v1 as i64, v2 as i64) as u64) }
    else if f3 == 5 && f7 == 1 { Some(if v2 == 0 { u64::MAX } else { v1 / v2 }) }
    else if f3 == 6 && f7 == 1 { Some(srem64(v1 as i64, v2 as i64) as u64) }
    else if f3 == 7 && f7 == 1 { Some(if v2 == 0 { v1 } else { v1 % v2 }) }
    else if f3 == 1 && f7 == 0 { Some(v1 << sh) }
    else if f3 == 5 && f7 == 0 { Some(v1 >> sh) }
    else if f3 == 5 && f7 == 0x20 { Some(((v1 as i64) >> sh) as u64) }
    else if f3 == 2 && f7 == 0 { Some(if (v1 as i64) < (v2 as i64) { 1u64 } else { 0u64 }) }
    else if f3 == 3 && f7 == 0 { Some(if v1 < v2 { 1u64 } else { 0u64 }) }
    else if f3 == 4 && f7 == 0 { Some(v1 ^ v2) }
    else if f3 == 6 && f7 == 0 { Some(v1 | v2) }
    else if f3 == 7 && f7 == 0 { Some(v1 & v2) }
    else { None }
}

fn sdiv32(a: i32, b: i32) -> (r: i32)
    ensures
        r == div_s32(a, b),
{
    if b == 0 {
        -1
    } else if a == i32::MIN && b == -1 {
        i32::MIN
    } else {
        let ua: u32 = if a < 0 { if a == i32::MIN { 0x8000_0000u32 } else { (-a) as u32 } } else { a as u32 };
        let ub: u32 = if b < 0 { if b == i32::MIN { 0x8000_0000u32 } else { (-b) as u32 } } else { b as u32 };
        let q: u32 = ua / ub;
        if (a < 0) != (b < 0) {
            assert(q <= 0x8000_0000u32) by (nonlinear_arith)
                requires q == ua / ub, ua <= 0x8000_0000u32, ub >= 1;
            if q == 0x8000_0000u32 { i32::MIN } else { -(q as i32) }
        } else {
            assert(q <= 0x7FFF_FFFFu32) by (nonlinear_arith)
                requires q == ua / ub, ua <= 0x8000_0000u32, ub >= 1,
                    ua == 0x8000_0000u32 ==> ub >= 2;
            q as i32
        }
    }
}

fn srem32(a: i32, b: i32) -> (r: i32)
    ensures
        r == rem_s32(a, b),
{
    if b == 0 {
        a
    } else if a == i32::MIN && b == -1 {
        0
    } else {
        let q = sdiv32(a, b);
        assert(-(i32::MAX as int) <= a - q * b <= i32::MAX) by (nonlinear_arith)
            requires
                q == div_s32(a, b),
                b != 0,
                !(a == i32::MIN && b == -1);
        (a as i64 - (q as i64) * (b as i64)) as i32
    }
}

fn exec_alu32(f3: u32, f7: u32, r1: u64, r2: u64) -> (r: Option<u64>)
    ensures
        r == alu32(f3, f7, r1, r2),
{
    let v1 = r1 as i32;
    let v2 = r2 as i32;
    let sh: u32 = (v2 & 0x1Fi32) as u32;
    assert(sh < 32) by (bit_vector) requires sh == (v2 & 0x1Fi32) as u32;
    if f3 == 0 && f7 == 0 { Some(v1.wrapping_add(v2) as i64 as u64) }
    else if f3 == 0 && f7 == 0x20 { Some(v1.wrapping_sub(v2) as i64 as u64) }
    else if f3 == 0 && f7 == 1 { Some(v1.wrapping_mul(v2) as i64 as u64) }
    else if f3 == 4 && f7 == 1 { Some(sdiv32(v1, v2) as i64 as u64) }
    else if f3 == 5 && f7 == 1 { Some(if v2 as u32 == 0 { u64::MAX } else { ((v1 as u32) / (v2 as u32)) as i32 as i64 as u64 }) }
    else if f3 == 6 && f7 == 1 { Some(srem32(v1, v2) as i64 as u64) }
    else if f3 == 7 && f7 == 1 { Some(if v2 as u32 == 0 { v1 as u32 as i32 as i64 as u64 } else { ((v1 as u32) % (v2 as u32)) as i32 as i64 as u64 }) }
    else if f3 == 1 && f7 == 0 { Some((v1 << sh) as i64 as u64) }
    else if f3 == 5 && f7 == 0 { Some(((v1 as u32) >> sh) as i32 as i64 as u64) }
    else if f3 == 5 && f7 == 0x20 { Some((v1 >> sh) as i64 as u64) }
    else { None }
}

fn exec_alu_imm64(f3: u32, word: u32, v1: u64) -> (r: Option<u64>)
    ensures
        r == alu_imm64(f3, word, v1),
{
    let imm = imm_i(word);
    let sh: u32 = (word >> 20u32) & 0x3Fu32;
    assert(sh < 64) by (bit_vector) requires sh == (word >> 20u32) & 0x3Fu32;
    if f3 == 0 { Some(v1.wrapping_add(imm as u64)) }
    else if f3 == 2 { Some(if (v1 as i64) < imm { 1u64 } else { 0u64 }) }
    else if f3 == 3 { Some(if v1 < (imm as u64) { 1u64 } else { 0u64 }) }
    else if f3 == 4 { Some(v1 ^ (imm as u64)) }
    else if f3 == 6 { Some(v1 | (imm as u64)) }
    else if f3 == 7 { Some(v1 & (imm as u64)) }
    else if f3 == 1 { Some(v1 << sh) }
    else if f3 == 5 {
        Some(if (word >> 26u32) & 0x3Fu32 == 0x10u32 { ((v1 as i64) >> sh) as u64 } else { v1 >> sh })
    }
    else { None }
}

fn exec_alu_imm32(f3: u32, word: u32, r1: u64) -> (r: Option<u64>)
    ensures
        r == alu_imm32(f3, word, r1),
{
    let imm = (word as i32) >> 20u32;
    let v1 = r1 as i32;
    let sh: u32 = (word >> 20u32) & 0x1Fu32;
    assert(sh < 32) by (bit_vector) requires sh == (word >> 20u32) & 0x1Fu32;
    if f3 == 0 { Some(v1.wrapping_add(imm) as i64 as u64) }
    else if f3 == 1 { Some((v1 << sh) as i64 as u64) }
    else if f3 == 5 {
        Some(if (word >> 30u32) & 1u32 == 1u32 { (v1 >> sh) as i64 as u64 } else { ((v1 as u32) >> sh) as i32 as i64 as u64 })
    }
    else { None }
}

fn exec_branch_taken(f3: u32, v1: u64, v2: u64) -> (r: bool)
    ensures
        r == branch_taken(f3, v1, v2),
{
    if f3 == 0 { v1 == v2 }
    else if f3 == 1 { v1 != v2 }
    else if f3 == 4 { (v1 as i64) < (v2 as i64) }
    else if f3 == 5 { (v1 as i64) >= (v2 as i64) }
    else if f3 == 6 { v1 < v2 }
    else if f3 == 7 { v1 >= v2 }
    else { false }
}

// ---------------------------------------------------------------------------
// Memory

/// Memory after an access of `size` bytes at `addr`: when the access reaches
/// past the end, memory grows with zero bytes to the larger of the access's
/// end and twice its old length. `None` when those sizes do not fit in `usize`.
pub open spec fn grow(mem: Seq<u8>, addr: int, size: int) -> Option<Seq<u8>> {
    if addr + size <= mem.len() {
        Some(mem)
    } else {
        let new_len: int = if addr + size > 2 * mem.len() { addr + size } else { 2 * (mem.len() as int) };
        if new_len > usize::MAX {
            None
        } else {
            Some(mem + Seq::new((new_len - mem.len()) as nat, |i: int| 0u8))
        }
    }
}

pub open spec fn le16(m: Seq<u8>, a: int) -> u16 {
    ((m[a] as u16) | ((m[a + 1] as u16) << 8u16)) as u16
}

pub open spec fn le32(m: Seq<u8>, a: int) -> u32 {
    (m[a] as u32) | ((m[a + 1] as u32) << 8u32) | ((m[a + 2] as u32) << 16u32) | ((m[a + 3] as u32) << 24u32)
}

pub open spec fn le64(m: Seq<u8>, a: int) -> u64 {
    (le32(m, a) as u64) | ((le32(m, a + 4) as u64) << 32u64)
}

/// The value that a load with `funct3` reads at `a`, extended to 64 bits.
pub open spec fn load_value(f3: u32, m: Seq<u8>, a: int) -> Option<u64> {
    if f3 == 0 { Some(((m[a] as i8) as i64) as u64) }
    else if f3 == 1 { Some(((le16(m, a) as i16) as i64) as u64) }
    else if f3 == 2 { Some(((le32(m, a) as i32) as i64) as u64) }
    else if f3 == 3 { Some(le64(m, a)) }
    else if f3 == 4 { Some(m[a] as u64) }
    else if f3 == 5 { Some(le16(m, a) as u64) }
    else if f3 == 6 { Some(le32(m, a) as u64) }
    else { None }
}

pub open spec fn load_size(f3: u32) -> int {
    if f3 == 0 || f3 == 4 { 1 } else if f3 == 1 || f3 == 5 { 2 } else if f3 == 2 || f3 == 6 { 4 } else { 8 }
}

pub open spec fn store_size(f3: u32) -> int {
    if f3 == 0 { 1 } else if f3 == 1 { 2 } else if f3 == 2 { 4 } else { 8 }
}

/// Memory after storing the low `size` bytes of `v` at `a`, little-endian.
pub open spec fn store_bytes(m: Seq<u8>, a: int, v: u64, size: int) -> Seq<u8>
    decreases size,
{
    if size <= 0 {
        m
    } else {
        store_bytes(m, a, v, size - 1).update(a + size - 1, ((v >> (8 * (size - 1)) as u64) & 0xFFu64) as u8)
    }
}

// ---------------------------------------------------------------------------
// One step

pub open spec fn fetch(m: Seq<u8>, pc: int) -> u32 {
    le32(m, pc)
}

pub open spec fn set_reg(regs: Seq<u64>, rd: int, v: u64) -> Seq<u64> {
    regs.update(rd, v)
}

/// The machine after one instruction, with `x0` reset to zero; `None` when
/// the instruction faults (fetch out of bounds, unknown encoding, memory
/// that cannot grow).
pub open spec fn step(m: Machine) -> Option<Machine> {
    if m.pc < 0 || m.pc + 4 > m.memory.len() {
        None
    } else {
        let word = fetch(m.memory, m.pc);
        let opcode = word & 0x7Fu32;
        let rd = ((word >> 7u32) & 0x1Fu32) as int;
        let f3 = (word >> 12u32) & 0x7u32;
        let rs1 = ((word >> 15u32) & 0x1Fu32) as int;
        let rs2 = ((word >> 20u32) & 0x1Fu32) as int;
        let f7 = (word >> 25u32) & 0x7Fu32;
        let next = m.pc + 4;
        let r = if opcode == 0x33 {
            match alu64(f3, f7, m.regs[rs1], m.regs[rs2]) {
                Some(v) => Some(Machine { regs: set_reg(m.regs, rd, v), pc: next, ..m }),
                None => None,
            }
        } else if opcode == 0x3B {
            match alu32(f3, f7, m.regs[rs1], m.regs[rs2]) {
                Some(v) => Some(Machine { regs: set_reg(m.regs, rd, v), pc: next, ..m }),
                None => None,
            }
        } else if opcode == 0x13 {
            match alu_imm64(f3, word, m.regs[rs1]) {
                Some(v) => Some(Machine { regs: set_reg(m.regs, rd, v), pc: next, ..m }),
                None => None,
            }
        } else if opcode == 0x1B {
            match alu_imm32(f3, word, m.regs[rs1]) {
                Some(v) => Some(Machine { regs: set_reg(m.regs, rd, v), pc: next, ..m }),
                None => None,
            }
        } else if opcode == 0x37 {
            Some(Machine { regs: set_reg(m.regs, rd, sext_u(word) as u64), pc: next, ..m })
        } else if opcode == 0x17 {
            Some(Machine { regs: set_reg(m.regs, rd, (m.pc as i64).wrapping_add(sext_u(word)) as u64), pc: next, ..m })
        } else if opcode == 0x03 {
            let addr = (m.regs[rs1].wrapping_add(sext_i(word) as u64) as usize) as int;
            if f3 == 7 {
                None
            } else {
                match grow(m.memory, addr, load_size(f3)) {
                    Some(mem) => match load_value(f3, mem, addr) {
                        Some(v) => Some(Machine { regs: set_reg(m.regs, rd, v), pc: next, memory: mem, ..m }),
                        None => None,
                    },
                    None => None,
                }
            }
        } else if opcode == 0x23 {
            let addr = (m.regs[rs1].wrapping_add(sext_s(word) as u64) as usize) as int;
            if f3 > 3 {
                None
            } else {
                match grow(m.memory, addr, store_size(f3)) {
                    Some(mem) => Some(Machine { pc: next, memory: store_bytes(mem, addr, m.regs[rs2], store_size(f3)), ..m }),
                    None => None,
                }
            }
        } else if opcode == 0x63 {
            let target = if branch_taken(f3, m.regs[rs1], m.regs[rs2]) {
                ((m.pc as i64).wrapping_add(sext_b(word)) as usize) as int
            } else {
                next
            };
            Some(Machine { pc: target, ..m })
        } else if opcode == 0x6F {
            let regs = if rd != 0 { set_reg(m.regs, rd, next as u64) } else { m.regs };
            Some(Machine { regs, pc: ((m.pc as i64).wrapping_add(sext_j(word)) as usize) as int, ..m })
        } else if opcode == 0x67 {
            let target = m.regs[rs1].wrapping_add(sext_i(word) as u64) & !1u64;
            let regs = if rd != 0 { set_reg(m.regs, rd, next as u64) } else { m.regs };
            Some(Machine { regs, pc: (target as usize) as int, ..m })
        } else {
            None
        };
        match r {
            Some(m2) => Some(Machine { regs: m2.regs.update(0, 0u64), ..m2 }),
            None => None,
        }
    }
}

/// The machine stops at its exit address within `n` steps, without a fault.
pub open spec fn halts(m: Machine, n: nat) -> bool
    decreases n,
{
    if m.pc == m.exit_pc {
        true
    } else if n == 0 {
        false
    } else {
        match step(m) {
            Some(m2) => halts(m2, (n - 1) as nat),
            None => false,
        }
    }
}

/// The machine after running until it reaches its exit address, for at most `n` steps.
pub open spec fn run_for(m: Machine, n: nat) -> Machine
    decreases n,
{
    if m.pc == m.exit_pc || n == 0 {
        m
    } else {
        match step(m) {
            Some(m2) => run_for(m2, (n - 1) as nat),
            None => m,
        }
    }
}

/// The machine with the call arguments in place: the first eight in `a0`..`a7`,
/// the rest stored as 64-bit words from the stack pointer upwards.
pub open spec fn load_args(m: Machine, args: Seq<u64>) -> Option<Machine>
    decreases args.len(),
{
    if args.len() == 0 {
        Some(m)
    } else {
        match load_args(m, args.drop_last()) {
            Some(m1) => {
                let i = args.len() - 1;
                if i < 8 {
                    Some(Machine { regs: m1.regs.update(10 + i, args.last()), ..m1 })
                } else {
                    let addr = (m1.regs[2] as usize) as int + 8 * (i - 8);
                    if addr > usize::MAX {
                        None
                    } else {
                        match grow(m1.memory, addr, 8) {
                            Some(mem) => Some(Machine { memory: store_bytes(mem, addr, args.last(), 8), ..m1 }),
                            None => None,
                        }
                    }
                }
            },
            None => None,
        }
    }
}

/// The interpreter runs deterministically: two step bounds within which the
/// machine halts lead to the same final machine.
pub proof fn lemma_run_deterministic(m: Machine, n1: nat, n2: nat)
    requires
        halts(m, n1),
        n1 <= n2,
    ensures
        run_for(m, n1) == run_for(m, n2),
        run_for(m, n1).pc == run_for(m, n1).exit_pc,
    decreases n1,
{
    if m.pc != m.exit_pc {
        let m2 = step(m).unwrap();
        lemma_run_deterministic(m2, (n1 - 1) as nat, (n2 - 1) as nat);
    }
}

// ---------------------------------------------------------------------------
// Execution

pub open spec fn with_regs(m: Machine, regs: Seq<u64>) -> Machine {
    Machine { regs, ..m }
}

pub open spec fn with_memory(m: Machine, memory: Seq<u8>) -> Machine {
    Machine { memory, ..m }
}

/// The machine that `RiscvVm::new` sets up for `code`: 4 MiB of zeroed
/// memory holding the code at address 0, the stack pointer 16 bytes below
/// the top, and the return address at the exit address.
pub open spec fn initial_machine(code: Seq<u8>) -> Machine {
    let regs = Seq::new(32, |i: int| 0u64).update(2, (mem_size() - 16) as u64).update(1, exit_address() as u64);
    let mem = Seq::new(mem_size() as nat, |i: int| if i < code.len() { code[i] } else { 0u8 });
    Machine { regs, pc: 0, memory: mem, exit_pc: exit_address() }
}

impl RiscvVm {
    pub open spec fn wf(&self) -> bool {
        self.regs@.len() == 32
    }

    pub fn new(code: &[u8]) -> (vm: Self)
        requires
            code@.len() <= mem_size(),
        ensures
            vm@ == initial_machine(code@),
    {
        let mem_size: usize = 4194304;
        let mut memory: Vec<u8> = vec![0u8; mem_size];
        let mut i: usize = 0;
        while i < code.len()
            invariant
                code@.len() <= mem_size,
                memory@.len() == mem_size,
                i <= code@.len(),
                forall|j: int| 0 <= j < mem_size ==> #[trigger] memory@[j] == (if j < i { code@[j] } else { 0u8 }),
            decreases code@.len() - i,
        {
            memory.set(i, code[i]);
            i = i + 1;
        }
        let mut regs = [0u64; 32];
        regs[2] = (mem_size - 16) as u64;
        let exit_pc: usize = 0xFFFF_0000;
        regs[1] = exit_pc as u64;
        let vm = RiscvVm { regs, pc: 0, memory, exit_pc };
        assert(vm@.memory =~= initial_machine(code@).memory);
        assert(vm@.regs =~= initial_machine(code@).regs);
        vm
    }

    fn set_reg(&mut self, rd: usize, v: u64)
        requires
            rd < 32,
        ensures
            final(self)@ == with_regs(old(self)@, old(self)@.regs.update(rd as int, v)),
    {
        self.regs[rd] = v;
        assert(self@.regs =~= old(self)@.regs.update(rd as int, v));
    }

    fn ensure_mem(&mut self, addr: usize, size: usize) -> (ok: bool)
        requires
            size <= 8,
        ensures
            ok == (grow(old(self)@.memory, addr as int, size as int) is Some),
            ok ==> final(self)@ == with_memory(old(self)@, grow(old(self)@.memory, addr as int, size as int).unwrap()),
            !ok ==> final(self)@ == old(self)@,
    {
        let len = self.memory.len();
        if addr > usize::MAX - size {
            return false;
        }
        if addr + size > len {
            let new_len = if len > usize::MAX / 2 {
                return false;
            } else if addr + size > 2 * len {
                addr + size
            } else {
                2 * len
            };
            self.memory.resize(new_len, 0u8);
            assert(self.memory@ =~= grow(old(self)@.memory, addr as int, size as int).unwrap());
        }
        true
    }

    fn read_le(&self, addr: usize, size: usize) -> (v: u64)
        requires
            size == 1 || size == 2 || size == 4 || size == 8,
            addr + size <= self.memory@.len(),
        ensures
            size == 1 ==> v == self.memory@[addr as int] as u64,
            size == 2 ==> v == le16(self.memory@, addr as int) as u64,
            size == 4 ==> v == le32(self.memory@, addr as int) as u64,
            size == 8 ==> v == le64(self.memory@, addr as int),
    {
        let m = &self.memory;
        let _len = m.len();
        if size == 1 {
            m[addr] as u64
        } else if size == 2 {
            (((m[addr] as u16) | ((m[addr + 1] as u16) << 8u16)) as u16) as u64
        } else {
            let lo: u32 = (m[addr] as u32) | ((m[addr + 1] as u32) << 8u32) | ((m[addr + 2] as u32) << 16u32) | ((m[addr + 3] as u32) << 24u32);
            if size == 4 {
                lo as u64
            } else {
                let hi: u32 = (m[addr + 4] as u32) | ((m[addr + 5] as u32) << 8u32) | ((m[addr + 6] as u32) << 16u32) | ((m[addr + 7] as u32) << 24u32);
                (lo as u64) | ((hi as u64) << 32u64)
            }
        }
    }

    fn load(&mut self, f3: u32, addr: usize) -> (r: Option<u64>)
        requires
            f3 < 7,
        ensures
            r is Some == (grow(old(self)@.memory, addr as int, load_size(f3)) is Some),
            r is Some ==> final(self)@ == with_memory(old(self)@, grow(old(self)@.memory, addr as int, load_size(f3)).unwrap())
                && Some(r->0) == load_value(f3, final(self)@.memory, addr as int),
            r is None ==> final(self)@ == old(self)@,
    {
        let size: usize = if f3 == 0 || f3 == 4 { 1 } else if f3 == 1 || f3 == 5 { 2 } else if f3 == 2 || f3 == 6 { 4 } else { 8 };
        if !self.ensure_mem(addr, size) {
            return None;
        }
        let raw = self.read_le(addr, size);
        let v = if f3 == 0 { ((raw as u8) as i8) as i64 as u64 }
            else if f3 == 1 { ((raw as u16) as i16) as i64 as u64 }
            else if f3 == 2 { ((raw as u32) as i32) as i64 as u64 }
            else { raw };
        Some(v)
    }

    fn store(&mut self, f3: u32, addr: usize, v: u64) -> (ok: bool)
        requires
            f3 <= 3,
        ensures
            ok == (grow(old(self)@.memory, addr as int, store_size(f3)) is Some),
            ok ==> final(self)@ == with_memory(
                old(self)@,
                store_bytes(grow(old(self)@.memory, addr as int, store_size(f3)).unwrap(), addr as int, v, store_size(f3)),
            ),
            !ok ==> final(self)@ == old(self)@,
    {
        let size: usize = if f3 == 0 { 1 } else if f3 == 1 { 2 } else if f3 == 2 { 4 } else { 8 };
        if !self.ensure_mem(addr, size) {
            return false;
        }
        let ghost grown = self.memory@;
        let _len = self.memory.len();
        let mut k: usize = 0;
        while k < size
            invariant
                size <= 8,
                addr + size <= grown.len() <= usize::MAX,
                self.memory@.len() == grown.len(),
                k <= size,
                self.memory@ == store_bytes(grown, addr as int, v, k as int),
                self.regs == old(self).regs,
                self.pc == old(self).pc,
                self.exit_pc == old(self).exit_pc,
            decreases size - k,
        {
            let b = ((v >> (8 * k) as u64) & 0xFFu64) as u8;
            self.memory.set(addr + k, b);
            k = k + 1;
        }
        true
    }

    /// Executes one instruction; false when it faults.
    pub fn step(&mut self) -> (ok: bool)
        requires
            old(self).wf(),
        ensures
            final(self).wf(),
            ok == (step(old(self)@) is Some),
            ok ==> final(self)@ == step(old(self)@).unwrap(),
    {
        let len = self.memory.len();
        if self.pc > len || len - self.pc < 4 {
            return false;
        }
        let pc = self.pc;
        let m = &self.memory;
        let word: u32 = (m[pc] as u32) | ((m[pc + 1] as u32) << 8u32) | ((m[pc + 2] as u32) << 16u32) | ((m[pc + 3] as u32) << 24u32);
        let opcode = word & 0x7Fu32;
        let rd = ((word >> 7u32) & 0x1Fu32) as usize;
        let f3 = (word >> 12u32) & 0x7u32;
        let rs1 = ((word >> 15u32) & 0x1Fu32) as usize;
        let rs2 = ((word >> 20u32) & 0x1Fu32) as usize;
        let f7 = (word >> 25u32) & 0x7Fu32;
        assert(rd < 32 && rs1 < 32 && rs2 < 32 && f3 < 8) by (bit_vector)
            requires
                rd == ((word >> 7u32) & 0x1Fu32) as usize,
                rs1 == ((word >> 15u32) & 0x1Fu32) as usize,
                rs2 == ((word >> 20u32) & 0x1Fu32) as usize,
                f3 == (word >> 12u32) & 0x7u32;
        let next = pc + 4;
        let v1 = self.regs[rs1];
        let v2 = self.regs[rs2];
        if opcode == 0x33 {
            match exec_alu64(f3, f7, v1, v2) {
                Some(v) => { self.set_reg(rd, v); }
                None => { return false; }
            }
            self.pc = next;
        } else if opcode == 0x3B {
            match exec_alu32(f3, f7, v1, v2) {
                Some(v) => { self.set_reg(rd, v); }
                None => { return false; }
            }
            self.pc = next;
        } else if opcode == 0x13 {
            match exec_alu_imm64(f3, word, v1) {
                Some(v) => { self.set_reg(rd, v); }
                None => { return false; }
            }
            self.pc = next;
        } else if opcode == 0x1B {
            match exec_alu_imm32(f3, word, v1) {
                Some(v) => { self.set_reg(rd, v); }
                None => { return false; }
            }
            self.pc = next;
        } else if opcode == 0x37 {
            let imm = ((word & 0xFFFFF000u32) as i32) as i64;
            self.set_reg(rd, imm as u64);
            self.pc = next;
        } else if opcode == 0x17 {
            let imm = ((word & 0xFFFFF000u32) as i32) as i64;
            self.set_reg(rd, (pc as i64).wrapping_add(imm) as u64);
            self.pc = next;
        } else if opcode == 0x03 {
            let addr = v1.wrapping_add(imm_i(word) as u64) as usize;
            if f3 == 7 {
                return false;
            }
            match self.load(f3, addr) {
                Some(v) => { self.set_reg(rd, v); }
                None => { return false; }
            }
            self.pc = next;
        } else if opcode == 0x23 {
            let addr = v1.wrapping_add(imm_s(word) as u64) as usize;
            if f3 > 3 {
                return false;
            }
            if !self.store(f3, addr, v2) {
                return false;
            }
            self.pc = next;
        } else if opcode == 0x63 {
            if exec_branch_taken(f3, v1, v2) {
                self.pc = (pc as i64).wrapping_add(imm_b(word)) as usize;
            } else {
                self.pc = next;
            }
        } else if opcode == 0x6F {
            if rd != 0 {
                self.set_reg(rd, next as u64);
            }
            self.pc = (pc as i64).wrapping_add(imm_j(word)) as usize;
        } else if opcode == 0x67 {
            let target = v1.wrapping_add(imm_i(word) as u64) & !1u64;
            if rd != 0 {
                self.set_reg(rd, next as u64);
            }
            self.pc = target as usize;
        } else {
            return false;
        }
        self.set_reg(0, 0);
        true
    }

    /// Runs the code until it returns to the exit address and gives back `a0`.
    pub fn run(&mut self, args: &[u64]) -> (r: u64)
        requires
            old(self).wf(),
            load_args(old(self)@, args@) is Some,
            exists|n: nat| halts(load_args(old(self)@, args@).unwrap(), n),
        ensures
            final(self).wf(),
            exists|n: nat| halts(load_args(old(self)@, args@).unwrap(), n)
                && final(self)@ == run_for(load_args(old(self)@, args@).unwrap(), n),
            final(self)@.pc == final(self)@.exit_pc,
            r == final(self)@.regs[10],
    {
        let ghost m0 = load_args(old(self)@, args@).unwrap();
        let mut i: usize = 0;
        while i < args.len()
            invariant
                self.wf(),
                i <= args@.len(),
                load_args(old(self)@, args@) is Some,
                load_args(old(self)@, args@.take(i as int)) == Some(self@),
            decreases args@.len() - i,
        {
            proof { lemma_load_args_prefix(old(self)@, args@, i as int + 1); }
            assert(args@.take(i as int + 1).drop_last() =~= args@.take(i as int));
            if i < 8 {
                self.set_reg(10 + i, args[i]);
            } else {
                let sp = self.regs[2] as usize;
                let addr = sp + 8 * (i - 8);
                let ok = self.store(3, addr, args[i]);
                assert(ok);
            }
            i = i + 1;
        }
        assert(args@.take(args@.len() as int) =~= args@);
        let ghost n0 = choose|n: nat| halts(m0, n);
        let ghost mut n: nat = n0;
        while self.pc != self.exit_pc
            invariant
                self.wf(),
                halts(self@, n),
                run_for(m0, n0) == run_for(self@, n),
            decreases n,
        {
            let ok = self.step();
            assert(ok);
            proof { n = (n - 1) as nat; }
        }
        self.regs[10]
    }

    /// Loads the arguments and runs the code for at most `fuel` instructions.
    /// Gives back `a0` when the code reaches the exit address within them, and
    /// `None` when the arguments do not load, an instruction faults before
    /// the exit, or the fuel runs out.
    pub fn run_with_fuel(&mut self, args: &[u64], fuel: u64) -> (r: Option<u64>)
        requires
            old(self).wf(),
        ensures
            final(self).wf(),
            match load_args(old(self)@, args@) {
                None => r is None,
                Some(m0) => if halts(m0, fuel as nat) {
                    r == Some(run_for(m0, fuel as nat).regs[10]) && final(self)@ == run_for(m0, fuel as nat)
                } else {
                    r is None
                },
            },
    {
        let mut i: usize = 0;
        while i < args.len()
            invariant
                self.wf(),
                i <= args@.len(),
                load_args(old(self)@, args@.take(i as int)) == Some(self@),
            decreases args@.len() - i,
        {
            proof {
                if load_args(old(self)@, args@) is Some {
                    lemma_load_args_prefix(old(self)@, args@, i as int + 1);
                }
            }
            assert(args@.take(i as int + 1).drop_last() =~= args@.take(i as int));
            if i < 8 {
                self.set_reg(10 + i, args[i]);
            } else {
                let sp = self.regs[2] as usize;
                let addr = match (i - 8).checked_mul(8) {
                    Some(off) => sp.checked_add(off),
                    None => None,
                };
                match addr {
                    Some(a) => {
                        if !self.store(3, a, args[i]) {
                            return None;
                        }
                    }
                    None => {
                        return None;
                    }
                }
            }
            i = i + 1;
        }
        assert(args@.take(args@.len() as int) =~= args@);
        let ghost m0 = self@;
        let mut k: u64 = 0;
        while self.pc != self.exit_pc && k < fuel
            invariant
                self.wf(),
                k <= fuel,
                load_args(old(self)@, args@) == Some(m0),
                halts(m0, fuel as nat) == halts(self@, (fuel - k) as nat),
                halts(m0, fuel as nat) ==> run_for(m0, fuel as nat) == run_for(self@, (fuel - k) as nat),
            decreases fuel - k,
        {
            let ghost before = self@;
            let ok = self.step();
            if !ok {
                assert(!halts(before, (fuel - k) as nat));
                return None;
            }
            k = k + 1;
        }
        if self.pc != self.exit_pc {
            return None;
        }
        Some(self.regs[10])
    }
}

/// A prefix of the arguments loads whenever all of them do.
pub proof fn lemma_load_args_prefix(m: Machine, args: Seq<u64>, k: int)
    requires
        0 <= k <= args.len(),
        load_args(m, args) is Some,
    ensures
        load_args(m, args.take(k)) is Some,
    decreases args.len() - k,
{
    if k < args.len() {
        lemma_load_args_prefix(m, args.drop_last(), k);
        assert(args.drop_last().take(k) =~= args.take(k));
    } else {
        assert(args.take(k) =~= args);
    }
}

} // verus!
