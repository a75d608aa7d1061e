use pfp::arch::Arch;
use pfp::remote::{ReadError, Remote};
use pfp::tls::{
    decode_tcb_offset, decode_tcb_offset_bytes, pick_task, resolve_zts_executor_globals, wait_step,
    TcbError, WaitEvent, WaitNext, ZtsError,
};

fn x86(buf: &[u8]) -> Result<i64, TcbError> {
    decode_tcb_offset_bytes(Arch::X86_64, buf)
}

fn arm(buf: &[u8]) -> Result<i64, TcbError> {
    decode_tcb_offset_bytes(Arch::Aarch64, buf)
}

#[test]
fn x86_64_decodes_negative_immediate() {
    //   48 c7 c0 e8 ff ff ff   mov $-0x18, %rax
    //   c3                     ret
    let buf = [0x48, 0xc7, 0xc0, 0xe8, 0xff, 0xff, 0xff, 0xc3, 0, 0, 0, 0];
    assert_eq!(x86(&buf).unwrap(), -0x18);
}

#[test]
fn x86_64_decodes_positive_immediate() {
    let buf = [0x48, 0xc7, 0xc0, 0x48, 0x01, 0x00, 0x00, 0xc3, 0, 0, 0, 0];
    assert_eq!(x86(&buf).unwrap(), 0x148);
}

#[test]
fn x86_64_skips_endbr64() {
    let buf = [
        0xf3, 0x0f, 0x1e, 0xfa, 0x48, 0xc7, 0xc0, 0xe8, 0xff, 0xff, 0xff, 0xc3,
    ];
    assert_eq!(x86(&buf).unwrap(), -0x18);
}

#[test]
fn x86_64_rejects_garbage() {
    let buf = [0u8; 12];
    assert!(x86(&buf).is_err());
}

#[test]
fn x86_64_rejects_short_buffer() {
    // mov-imm prologue starts but is truncated before ret.
    let buf = [0x48, 0xc7, 0xc0, 0xe8, 0xff, 0xff, 0xff];
    assert!(x86(&buf).is_err());
}

#[test]
fn x86_64_rejects_missing_ret() {
    // Right shape but a NOP where RET should be.
    let buf = [0x48, 0xc7, 0xc0, 0xe8, 0xff, 0xff, 0xff, 0x90, 0, 0, 0, 0];
    assert!(x86(&buf).is_err());
}

#[test]
fn aarch64_decodes_movz_only() {
    //   d2a00000  movz x0, #0x0,  lsl #16
    //   f2802900  movk x0, #0x148, lsl #0
    //   d65f03c0  ret
    let movz = 0xd2a0_0000_u32.to_le_bytes();
    let movk = 0xf280_2900_u32.to_le_bytes();
    let ret = 0xd65f_03c0_u32.to_le_bytes();
    let mut buf = [0u8; 16];
    buf[0..4].copy_from_slice(&movz);
    buf[4..8].copy_from_slice(&movk);
    buf[8..12].copy_from_slice(&ret);
    assert_eq!(arm(&buf).unwrap(), 0x148);
}

#[test]
fn aarch64_decodes_movz_lsl_zero() {
    // movz x0, #0x148, lsl #0
    // ret
    let movz = 0xd280_2900_u32.to_le_bytes();
    let ret = 0xd65f_03c0_u32.to_le_bytes();
    let mut buf = [0u8; 16];
    buf[0..4].copy_from_slice(&movz);
    buf[4..8].copy_from_slice(&ret);
    assert_eq!(arm(&buf).unwrap(), 0x148);
}

#[test]
fn aarch64_skips_bti() {
    let bti = 0xd503_245f_u32.to_le_bytes();
    let movz = 0xd280_2900_u32.to_le_bytes();
    let ret = 0xd65f_03c0_u32.to_le_bytes();
    let mut buf = [0u8; 16];
    buf[0..4].copy_from_slice(&bti);
    buf[4..8].copy_from_slice(&movz);
    buf[8..12].copy_from_slice(&ret);
    assert_eq!(arm(&buf).unwrap(), 0x148);
}

#[test]
fn aarch64_rejects_movk_into_non_x0() {
    let movz = 0xd280_2901_u32.to_le_bytes(); // Rd=1
    let ret = 0xd65f_03c0_u32.to_le_bytes();
    let mut buf = [0u8; 12];
    buf[0..4].copy_from_slice(&movz);
    buf[4..8].copy_from_slice(&ret);
    assert!(arm(&buf).is_err());
}

#[test]
fn aarch64_combines_movz_low_then_movk_high() {
    // movz x0, #0xbeef, lsl #0
    // movk x0, #0xdead, lsl #16
    // ret
    let movz_low = (0xd280_0000_u32 | (0xbeef_u32 << 5)).to_le_bytes();
    let movk_high = (0xf2a0_0000_u32 | (0xdead_u32 << 5)).to_le_bytes();
    let ret = 0xd65f_03c0_u32.to_le_bytes();
    let mut buf = [0u8; 16];
    buf[0..4].copy_from_slice(&movz_low);
    buf[4..8].copy_from_slice(&movk_high);
    buf[8..12].copy_from_slice(&ret);
    assert_eq!(arm(&buf).unwrap(), 0xdead_beef);
}

#[test]
fn aarch64_rejects_movk_before_movz() {
    // MOVK without a preceding MOVZ leaves the high bits undefined.
    let movk = 0xf280_2900_u32.to_le_bytes();
    let ret = 0xd65f_03c0_u32.to_le_bytes();
    let mut buf = [0u8; 12];
    buf[0..4].copy_from_slice(&movk);
    buf[4..8].copy_from_slice(&ret);
    assert!(arm(&buf).is_err());
}

#[test]
fn aarch64_rejects_unknown_instruction() {
    // ADD x0, x0, #1 (not part of the recognized prologue).
    let add = 0x9100_0400_u32.to_le_bytes();
    let ret = 0xd65f_03c0_u32.to_le_bytes();
    let mut buf = [0u8; 12];
    buf[0..4].copy_from_slice(&add);
    buf[4..8].copy_from_slice(&ret);
    assert!(arm(&buf).is_err());
}

fn words(ws: &[u32]) -> Vec<u8> {
    ws.iter().flat_map(|w| w.to_le_bytes()).collect()
}

const RET: u32 = 0xd65f_03c0;

#[test]
fn tcb_errors_are_told_apart() {
    assert_eq!(x86(&[0x48; 7]), Err(TcbError::Short { len: 7 }));
    assert_eq!(x86(&[0x48; 8]), Err(TcbError::NotMovRet));
    assert_eq!(arm(&[0; 11]), Err(TcbError::Short { len: 11 }));
    assert_eq!(arm(&words(&[RET, 0, 0])), Err(TcbError::RetBeforeMovz { word: RET }));
    assert_eq!(
        arm(&words(&[0xd280_2901, RET, 0])),
        Err(TcbError::NotX0 { word: 0xd280_2901 })
    );
    assert_eq!(arm(&words(&[0xf280_2900, RET, 0])), Err(TcbError::MovkBeforeMovz));
    assert_eq!(
        arm(&words(&[0xd503_245f, 0xd280_2900, 0x9100_0400])),
        Err(TcbError::Unexpected { word: 0x9100_0400, at: 8 })
    );
    assert_eq!(
        arm(&words(&[0xd280_2900, 0xd280_2900, RET])),
        Err(TcbError::Unexpected { word: 0xd280_2900, at: 4 })
    );
    assert_eq!(
        arm(&words(&[0xd280_2900, 0xf280_2901, RET])),
        Err(TcbError::NotX0 { word: 0xf280_2901 })
    );
    assert_eq!(arm(&words(&[0xd503_245f, 0xd280_2900, 0xf280_2900])), Err(TcbError::NoRet));
}

#[test]
fn aarch64_moves_fill_quarters_of_the_register() {
    // movz x0, #0xffff, lsl #48; movk x0, #0x1234, lsl #48 or movk x0, #0x5678, lsl #32
    let movz = 0xd2e0_0000 | (0xffff << 5);
    let movk48 = 0xf2e0_0000 | (0x1234 << 5);
    let movk32 = 0xf2c0_0000 | (0x5678 << 5);
    assert_eq!(arm(&words(&[movz, movk48, RET])), Ok(0x1234_0000_0000_0000));
    assert_eq!(arm(&words(&[movz, movk32, RET])), Ok(-0xa988_0000_0000));
    // A set top bit makes the offset negative.
    assert_eq!(arm(&words(&[movz, RET, 0])), Ok(-0x1_0000_0000_0000));
    // One movk at most is accepted.
    assert_eq!(
        arm(&words(&[movz, movk48, movk32, RET])),
        Err(TcbError::Unexpected { word: movk32, at: 8 })
    );
}

#[test]
fn a_task_is_waited_for_until_it_stops_or_takes_too_long() {
    assert_eq!(wait_step(WaitEvent::Stopped, u64::MAX), WaitNext::Go);
    assert_eq!(wait_step(WaitEvent::StillAlive, 0), WaitNext::Sleep);
    assert_eq!(wait_step(WaitEvent::StillAlive, 1_999_999_999), WaitNext::Sleep);
    assert_eq!(wait_step(WaitEvent::StillAlive, 2_000_000_000), WaitNext::GiveUp);
    assert_eq!(wait_step(WaitEvent::Other, 0), WaitNext::GiveUp);
    assert_eq!(wait_step(WaitEvent::Failed, 0), WaitNext::GiveUp);
}

#[test]
fn a_task_other_than_the_leader_is_preferred() {
    let names = |l: &[&str]| l.iter().map(|s| s.to_string()).collect::<Vec<_>>();
    assert_eq!(pick_task(10, &names(&["10", "self", "12", "11"])), Some(12));
    assert_eq!(pick_task(10, &names(&["x", "10"])), Some(10));
    assert_eq!(pick_task(10, &names(&["x", "99999999999"])), None);
    assert_eq!(pick_task(10, &names(&[])), None);
}

fn word(v: u64) -> Option<Vec<u8>> {
    Some(v.to_le_bytes().to_vec())
}

#[test]
fn zts_globals_are_found_step_by_step() {
    let mut accessor = vec![0x48, 0xc7, 0xc0, 0xe8, 0xff, 0xff, 0xff, 0xc3];
    accessor.resize(24, 0x90);
    let mut rem = Remote::new(7);
    let find = |rem: &Remote, base| {
        resolve_zts_executor_globals(rem, Arch::X86_64, base, 0x1000, 0x2000)
    };
    let pending = |addr, len| Err(ZtsError::Read(ReadError::Pending { addr, len }));
    assert_eq!(find(&rem, None), pending(0x1000, 24));
    rem.supply(0x1000, 24, Some(accessor));
    assert_eq!(decode_tcb_offset(&rem, Arch::X86_64, 0x1000), Ok(-0x18));
    assert_eq!(find(&rem, None), Err(ZtsError::NeedTlsBase));
    // The slot is 0x18 below the thread pointer.
    let base = Some(0x7018);
    assert_eq!(find(&rem, base), pending(0x7000, 8));
    rem.supply(0x7000, 8, word(0));
    assert_eq!(find(&rem, base), Err(ZtsError::NullCache));
    rem.supply(0x7000, 8, word(0x9000));
    assert_eq!(find(&rem, base), pending(0x2000, 8));
    rem.supply(0x2000, 8, word(0x40));
    assert_eq!(find(&rem, base), pending(0x9040, 8));
    rem.supply(0x9040, 8, word(0xabcd));
    assert_eq!(find(&rem, base), Ok(0xabcd));
}

#[test]
fn zts_accessor_that_is_not_one() {
    let mut rem = Remote::new(7);
    rem.supply(0x1000, 24, Some(vec![0; 24]));
    assert_eq!(
        resolve_zts_executor_globals(&rem, Arch::X86_64, Some(1), 0x1000, 0x2000),
        Err(ZtsError::Accessor(TcbError::NotMovRet))
    );
    rem.supply(0x1000, 24, None);
    assert_eq!(
        decode_tcb_offset(&rem, Arch::Aarch64, 0x1000),
        Err(ZtsError::Read(ReadError::Failed { addr: 0x1000, len: 24 }))
    );
}
