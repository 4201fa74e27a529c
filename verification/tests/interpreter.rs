//! Scalar MIR bodies, with the answers Rust gives.

use riri::mir::driver::{
    choose_action, contains, describe_outcome, has_sysroot, listing, with_sysroot, Action, BlockText,
};
use riri::mir::fixtures;
use riri::mir::interp::Interp;
use riri::mir::kinds::IntKind;
use riri::mir::ops::{binary, cast_to, unary, BinOp, UnOp};
use riri::mir::syntax::{
    int_kind, Block, Body, Constant, IntTy, Operand, Place, Projection, Rvalue, Statement,
    Terminator, Ty, TyShape, UintTy,
};
use riri::mir::value::Value;

// ------------------------------------------------------- building bodies ---

fn ty(shape: TyShape) -> Ty {
    Ty {
        shape,
        text: "RigidTy(Float(F32))".to_string(),
    }
}

fn u32_ty() -> TyShape {
    TyShape::Uint(UintTy::U32)
}

fn local(local: usize) -> Place {
    Place {
        local,
        projection: Vec::new(),
    }
}

fn field(local: usize, index: usize) -> Place {
    Place {
        local,
        projection: vec![Projection::Field {
            index,
            text: format!("Field({index}, Ty)"),
        }],
    }
}

fn copy(l: usize) -> Operand {
    Operand::Copy(local(l))
}

fn constant(bits: u128, shape: TyShape) -> Operand {
    Operand::Constant(Constant::Allocated {
        ty: ty(shape),
        bits: Ok(bits),
    })
}

fn assign(l: usize, r: Rvalue) -> Statement {
    Statement::Assign(local(l), r)
}

fn block(statements: Vec<Statement>, terminator: Terminator) -> Block {
    Block {
        statements,
        terminator,
    }
}

fn body(locals: usize, blocks: Vec<Block>) -> Body {
    Body { locals, blocks }
}

fn straight(locals: usize, statements: Vec<Statement>) -> Body {
    body(locals, vec![block(statements, Terminator::Return)])
}

fn answer(b: &Body) -> String {
    match Interp::run(b) {
        Ok(v) => v.to_string(),
        Err(why) => format!("stopped: {why}"),
    }
}

/// `_local = _local + n`, checked, and on to `target`.
fn checked_add(l: usize, pair: usize, n: Operand, target: usize) -> (Vec<Statement>, Terminator) {
    (
        vec![assign(pair, Rvalue::CheckedBinaryOp(BinOp::Add, copy(l), n))],
        Terminator::Assert {
            cond: Operand::Move(field(pair, 1)),
            expected: false,
            target,
            message: "attempt to add with overflow".to_string(),
        },
    )
}

/// A loop that adds to a total while a counter is below ten.
fn adding_loop(shape: TyShape, start: u128, step: Option<u128>) -> Body {
    let by = |s: Option<u128>| match s {
        Some(n) => constant(n, shape),
        None => copy(2),
    };
    let (add, add_end) = checked_add(1, 3, by(step), 3);
    let (bump, bump_end) = checked_add(2, 4, constant(1, shape), 4);
    let mut after_add = vec![assign(1, Rvalue::Use(Operand::Move(field(3, 0))))];
    after_add.extend(bump);
    body(
        6,
        vec![
            block(
                vec![
                    Statement::Marker,
                    assign(1, Rvalue::Use(constant(start, shape))),
                    assign(2, Rvalue::Use(constant(0, shape))),
                ],
                Terminator::Goto { target: 1 },
            ),
            block(
                vec![assign(
                    5,
                    Rvalue::BinaryOp(BinOp::Lt, copy(2), constant(10, shape)),
                )],
                Terminator::SwitchInt {
                    discr: Operand::Move(local(5)),
                    branches: vec![(0, 5)],
                    otherwise: 2,
                },
            ),
            block(add, add_end),
            block(after_add, bump_end),
            block(
                vec![assign(2, Rvalue::Use(Operand::Move(field(4, 0))))],
                Terminator::Goto { target: 1 },
            ),
            block(
                vec![assign(0, Rvalue::Use(copy(1)))],
                Terminator::Return,
            ),
        ],
    )
}

// ------------------------------------------------------------- fixtures ---

#[test]
fn the_interpreter_agrees_with_rust() {
    assert_eq!(
        answer(&adding_loop(u32_ty(), 0, None)),
        format!("{}_u32", fixtures::sum_to_ten())
    );
    let division = straight(
        1,
        vec![assign(
            0,
            Rvalue::BinaryOp(
                BinOp::Div,
                constant(-7i32 as u32 as u128, TyShape::Int(IntTy::I32)),
                constant(3, TyShape::Int(IntTy::I32)),
            ),
        )],
    );
    assert_eq!(answer(&division), format!("{}_i32", fixtures::signed_division()));
    let narrowing = straight(
        1,
        vec![assign(
            0,
            Rvalue::Cast(constant(300, u32_ty()), ty(TyShape::Uint(UintTy::U8))),
        )],
    );
    assert_eq!(answer(&narrowing), format!("{}_u8", fixtures::truncating_cast()));
    let widening = straight(
        1,
        vec![assign(
            0,
            Rvalue::Cast(
                constant(-3i8 as u8 as u128, TyShape::Int(IntTy::I8)),
                ty(TyShape::Int(IntTy::I64)),
            ),
        )],
    );
    assert_eq!(answer(&widening), format!("{}_i64", fixtures::sign_extending_cast()));
    let compared = straight(
        1,
        vec![assign(
            0,
            Rvalue::BinaryOp(
                BinOp::Lt,
                constant(-1i32 as u32 as u128, TyShape::Int(IntTy::I32)),
                constant(1, TyShape::Int(IntTy::I32)),
            ),
        )],
    );
    assert_eq!(answer(&compared), format!("{}", fixtures::comparisons()));
    let shifted = straight(
        1,
        vec![assign(
            0,
            Rvalue::BinaryOp(
                BinOp::Shl,
                constant(1, u32_ty()),
                constant(5, TyShape::Int(IntTy::I32)),
            ),
        )],
    );
    assert_eq!(answer(&shifted), format!("{}_u32", fixtures::shifts()));
}

#[test]
fn the_fixtures_give_the_documented_answers() {
    assert_eq!(fixtures::sum_to_ten(), 45);
    assert_eq!(fixtures::signed_division(), -2);
    assert_eq!(fixtures::truncating_cast(), 44);
    assert_eq!(fixtures::sign_extending_cast(), -3);
    assert!(fixtures::comparisons());
    assert_eq!(fixtures::shifts(), 32);
    let mut out = vec![0u32; 6];
    for block in 0..2 {
        for tid in 0..4 {
            fixtures::scatter(&mut out, 4, tid, block);
        }
    }
    assert_eq!(out, vec![0, 1, 2, 3, 4, 5]);
}

#[test]
fn an_overflow_stops_with_the_words_of_the_panic() {
    assert_eq!(
        answer(&adding_loop(TyShape::Uint(UintTy::U8), 250, Some(1))),
        "stopped: attempt to add with overflow"
    );
    // Five steps fewer fit.
    assert_eq!(
        answer(&adding_loop(TyShape::Uint(UintTy::U8), 245, Some(1))),
        "255_u8"
    );
}

// ------------------------------------------------------------- refusals ---

#[test]
fn what_cannot_be_run_says_so() {
    let stops = |statements: Vec<Statement>| answer(&straight(3, statements));
    let other = || "FakeOther".to_string();

    assert_eq!(stops(vec![assign(0, Rvalue::Use(copy(1)))]), "stopped: read of uninitialised _1");
    assert_eq!(stops(vec![assign(0, Rvalue::Use(copy(7)))]), "stopped: no local _7");
    assert_eq!(stops(vec![assign(7, Rvalue::Use(constant(1, u32_ty())))]), "stopped: no local _7");
    assert_eq!(
        stops(vec![
            assign(1, Rvalue::Use(constant(1, u32_ty()))),
            assign(0, Rvalue::Use(Operand::Copy(field(1, 0)))),
        ]),
        "stopped: cannot take a field of Int { raw: 1, kind: IntKind { bits: 32, signed: false } }"
    );
    assert_eq!(
        stops(vec![
            assign(1, Rvalue::Aggregate(vec![constant(1, u32_ty())])),
            assign(0, Rvalue::Use(Operand::Copy(field(1, 2)))),
        ]),
        "stopped: no field 2"
    );
    assert_eq!(
        stops(vec![
            assign(1, Rvalue::Aggregate(vec![constant(1, u32_ty())])),
            Statement::Assign(field(1, 3), Rvalue::Use(constant(1, u32_ty()))),
        ]),
        "stopped: no field 3"
    );
    assert_eq!(
        stops(vec![Statement::Assign(
            field(1, 0),
            Rvalue::Use(constant(1, u32_ty()))
        )]),
        "stopped: cannot assign a field of Uninit"
    );
    let deref = Place {
        local: 1,
        projection: vec![Projection::Other {
            text: "Deref".to_string(),
        }],
    };
    assert_eq!(
        stops(vec![assign(0, Rvalue::CopyForDeref(deref))]),
        "stopped: projection not interpreted yet: Deref"
    );
    let deep = Place {
        local: 1,
        projection: vec![
            Projection::Field {
                index: 0,
                text: "Field(0, Ty)".to_string(),
            },
            Projection::Other {
                text: "Deref".to_string(),
            },
        ],
    };
    assert_eq!(
        stops(vec![Statement::Assign(deep, Rvalue::Use(constant(1, u32_ty())))]),
        "stopped: projection not interpreted yet: [Field(0, Ty), Deref]"
    );
    assert_eq!(
        stops(vec![Statement::Other { text: other() }]),
        "stopped: statement not interpreted yet: FakeOther"
    );
    assert_eq!(
        stops(vec![assign(0, Rvalue::Other { text: other() })]),
        "stopped: rvalue not interpreted yet: FakeOther"
    );
    assert_eq!(
        stops(vec![assign(
            0,
            Rvalue::Use(Operand::Constant(Constant::Other { text: other() }))
        )]),
        "stopped: constant not interpreted yet: FakeOther"
    );
    assert_eq!(
        stops(vec![assign(0, Rvalue::Use(constant(1, TyShape::Other)))]),
        "stopped: constant type not supported: RigidTy(Float(F32))"
    );
    assert_eq!(
        stops(vec![assign(
            0,
            Rvalue::Use(Operand::Constant(Constant::Allocated {
                ty: ty(u32_ty()),
                bits: Err("Error(\"unreadable\")".to_string()),
            }))
        )]),
        "stopped: Error(\"unreadable\")"
    );
    assert_eq!(
        stops(vec![assign(
            0,
            Rvalue::Cast(constant(1, u32_ty()), ty(TyShape::Other))
        )]),
        "stopped: cast target not supported: RigidTy(Float(F32))"
    );
}

#[test]
fn ends_that_cannot_be_followed_say_so() {
    let ends = |t: Terminator| answer(&body(2, vec![block(Vec::new(), t)]));
    assert_eq!(
        ends(Terminator::Goto { target: 4 }),
        "stopped: jumped to bb4, which does not exist"
    );
    assert_eq!(
        ends(Terminator::Goto { target: 0 }),
        "stopped: gave up after 1000000 steps"
    );
    assert_eq!(ends(Terminator::Unreachable), "stopped: reached unreachable");
    assert_eq!(ends(Terminator::Return), "uninit");
    assert_eq!(
        ends(Terminator::Call {
            func: "Constant(f)".to_string()
        }),
        "stopped: calls are not interpreted yet: Constant(f)"
    );
    assert_eq!(
        ends(Terminator::Other {
            text: "Resume".to_string()
        }),
        "stopped: terminator not interpreted yet: Resume"
    );
    assert_eq!(
        ends(Terminator::Assert {
            cond: constant(1, u32_ty()),
            expected: true,
            target: 0,
            message: String::new(),
        }),
        "stopped: expected a bool, found Int { raw: 1, kind: IntKind { bits: 32, signed: false } }"
    );
    let on_pair = body(
        2,
        vec![block(
            vec![assign(1, Rvalue::Aggregate(Vec::new()))],
            Terminator::SwitchInt {
                discr: copy(1),
                branches: Vec::new(),
                otherwise: 0,
            },
        )],
    );
    assert_eq!(answer(&on_pair), "stopped: cannot switch on Aggregate([])");
}

// ------------------------------------------------------------ statements ---

#[test]
fn fields_are_stored_and_loaded() {
    let b = straight(
        2,
        vec![
            assign(
                1,
                Rvalue::Aggregate(vec![
                    constant(1, u32_ty()),
                    Operand::RuntimeChecks { overflow: true },
                    Operand::RuntimeChecks { overflow: false },
                ]),
            ),
            Statement::Assign(field(1, 0), Rvalue::Use(constant(9, u32_ty()))),
            assign(0, Rvalue::Use(copy(1))),
        ],
    );
    assert_eq!(answer(&b), "(9_u32, true, false)");
}

#[test]
fn the_first_matching_arm_is_taken() {
    let b = body(
        2,
        vec![
            block(
                vec![assign(1, Rvalue::Use(constant(7, u32_ty())))],
                Terminator::SwitchInt {
                    discr: copy(1),
                    branches: vec![(3, 2), (7, 1), (7, 2)],
                    otherwise: 2,
                },
            ),
            block(
                vec![assign(0, Rvalue::Use(constant(1, TyShape::Bool)))],
                Terminator::Return,
            ),
            block(Vec::new(), Terminator::Unreachable),
        ],
    );
    assert_eq!(answer(&b), "true");
}

// ------------------------------------------------------------- operators ---

fn whole(raw: u128, bits: u32, signed: bool) -> Value {
    Value::integer(raw, IntKind::new(bits, signed))
}

#[test]
fn an_integer_of_no_bits_is_zero() {
    let nothing = IntKind::new(0, false);
    assert_eq!(whole(300, 0, false).as_int(), Ok((0, nothing)));
    assert_eq!(whole(300, 8, false).as_int(), Ok((44, IntKind::new(8, false))));
}

fn shown(op: BinOp, a: &Value, b: &Value) -> String {
    match binary(op, a, b) {
        Ok((v, overflowed)) => format!("{}{}", v.to_string(), if overflowed { "!" } else { "" }),
        Err(why) => why,
    }
}

#[test]
fn arithmetic_matches_every_width() {
    let u8v = |n: u128| whole(n, 8, false);
    let i8v = |n: i8| whole(n as u8 as u128, 8, true);
    assert_eq!(shown(BinOp::Add, &u8v(200), &u8v(100)), "44_u8!");
    assert_eq!(shown(BinOp::Add, &u8v(200), &u8v(55)), "255_u8");
    assert_eq!(shown(BinOp::Sub, &u8v(3), &u8v(5)), "254_u8!");
    assert_eq!(shown(BinOp::Mul, &u8v(16), &u8v(16)), "0_u8!");
    assert_eq!(shown(BinOp::Add, &i8v(100), &i8v(27)), "127_i8");
    assert_eq!(shown(BinOp::Add, &i8v(100), &i8v(28)), "-128_i8!");
    assert_eq!(shown(BinOp::Sub, &i8v(-128), &i8v(1)), "127_i8!");
    assert_eq!(shown(BinOp::Mul, &i8v(-16), &i8v(8)), "-128_i8");
    assert_eq!(shown(BinOp::Div, &i8v(-7), &i8v(2)), "-3_i8");
    assert_eq!(shown(BinOp::Rem, &i8v(-7), &i8v(2)), "-1_i8");
    assert_eq!(shown(BinOp::Rem, &i8v(7), &i8v(-2)), "1_i8");
    assert_eq!(shown(BinOp::Div, &u8v(7), &u8v(0)), "division by zero");
    assert_eq!(shown(BinOp::Rem, &u8v(7), &u8v(0)), "remainder by zero");
    let wide = whole(u128::MAX, 128, false);
    assert_eq!(shown(BinOp::Add, &wide, &whole(1, 128, false)), "0_u128!");
    let top = whole(i128::MAX as u128, 128, true);
    assert_eq!(
        shown(BinOp::Add, &top, &whole(1, 128, true)),
        format!("{}_i128!", i128::MIN)
    );
}

#[test]
fn bits_and_shifts_match_rust() {
    let a = whole(0b1100, 8, false);
    let b = whole(0b1010, 8, false);
    assert_eq!(shown(BinOp::BitAnd, &a, &b), "8_u8");
    assert_eq!(shown(BinOp::BitOr, &a, &b), "14_u8");
    assert_eq!(shown(BinOp::BitXor, &a, &b), "6_u8");
    assert_eq!(shown(BinOp::Shl, &a, &whole(5, 32, false)), "128_u8");
    assert_eq!(shown(BinOp::Shr, &a, &whole(2, 32, false)), "3_u8");
    // The amount wraps at the width, and saying so is the overflow flag.
    assert_eq!(shown(BinOp::Shl, &a, &whole(9, 32, false)), "24_u8!");
    // A signed shift fills with the sign.
    let minus = whole(-5i8 as u8 as u128, 8, true);
    assert_eq!(shown(BinOp::Shr, &minus, &whole(1, 8, true)), "-3_i8");
    assert_eq!(shown(BinOp::Shl, &minus, &whole(1, 8, true)), "-10_i8");
}

#[test]
fn comparisons_follow_the_sign() {
    let minus = whole(u32::MAX as u128, 32, true);
    let one = whole(1, 32, true);
    assert_eq!(shown(BinOp::Lt, &minus, &one), "true");
    assert_eq!(shown(BinOp::Ge, &minus, &one), "false");
    let big = whole(u32::MAX as u128, 32, false);
    let small = whole(1, 32, false);
    assert_eq!(shown(BinOp::Lt, &big, &small), "false");
    assert_eq!(shown(BinOp::Gt, &big, &small), "true");
    assert_eq!(shown(BinOp::Le, &small, &small), "true");
    assert_eq!(shown(BinOp::Eq, &small, &small), "true");
    assert_eq!(shown(BinOp::Ne, &small, &big), "true");
}

#[test]
fn operators_refuse_what_they_cannot_take() {
    let yes = Value::Bool(true);
    let no = Value::Bool(false);
    assert_eq!(shown(BinOp::BitXor, &yes, &no), "true");
    assert_eq!(shown(BinOp::BitAnd, &yes, &no), "false");
    assert_eq!(shown(BinOp::Add, &yes, &no), "Add is not defined on bools");
    assert_eq!(
        shown(BinOp::Add, &yes, &whole(1, 8, false)),
        "expected an integer, found Bool(true)"
    );
    assert_eq!(
        shown(BinOp::Add, &whole(1, 8, false), &whole(1, 8, true)),
        "mismatched operand types: IntKind { bits: 8, signed: false } and IntKind { bits: 8, \
         signed: true }"
    );
    assert_eq!(
        shown(BinOp::Offset, &whole(1, 8, false), &whole(1, 8, false)),
        "operator not interpreted yet: Offset"
    );
    assert_eq!(BinOp::Cmp.name(), "Cmp");
    assert_eq!(
        unary(UnOp::PtrMetadata, &yes).err().unwrap(),
        "pointer metadata needs a memory model"
    );
    assert_eq!(unary(UnOp::Not, &Value::Uninit).err().unwrap(), "cannot negate Uninit");
    assert_eq!(
        cast_to(&Value::Uninit, IntKind::new(8, false)).err().unwrap(),
        "cannot cast Uninit"
    );
}

#[test]
fn unary_operators_and_casts_match_rust() {
    let show = |r: Result<Value, String>| r.ok().unwrap().to_string();
    assert_eq!(show(unary(UnOp::Not, &Value::Bool(true))), "false");
    assert_eq!(show(unary(UnOp::Not, &whole(0, 8, false))), "255_u8");
    assert_eq!(show(unary(UnOp::Not, &whole(0, 8, true))), "-1_i8");
    assert_eq!(show(unary(UnOp::Neg, &whole(5, 8, true))), "-5_i8");
    assert_eq!(show(unary(UnOp::Neg, &whole(0x80, 8, true))), "-128_i8");
    assert_eq!(show(cast_to(&Value::Bool(true), IntKind::new(16, false))), "1_u16");
    assert_eq!(
        show(cast_to(&whole(0xFF, 8, true), IntKind::new(32, false))),
        "4294967295_u32"
    );
    assert_eq!(show(cast_to(&whole(0x1FF, 16, false), IntKind::new(8, true))), "-1_i8");
}

#[test]
fn kinds_read_bits_both_ways() {
    let k = IntKind::new(8, true);
    assert_eq!(k.mask(), 255);
    assert_eq!(k.truncate(0x1FF), 255);
    assert_eq!(k.as_signed(0x80), -128);
    assert!(k.fits(127));
    assert!(!k.fits(128));
    assert!(!IntKind::new(8, false).fits(-1));
    assert!(IntKind::new(8, false).fits(255));
    assert_eq!(IntKind::new(128, false).mask(), u128::MAX);
}

#[test]
fn values_say_what_they_are() {
    let pair = Value::Aggregate(vec![whole(3, 8, true), Value::Bool(true)]);
    assert_eq!(pair.clone(), pair);
    assert_eq!(pair.to_string(), "(3_i8, true)");
    assert!(pair.as_int().is_err());
    assert_eq!(Value::Bool(true).discriminant(), Ok(1));
    assert_eq!(whole(9, 8, false).discriminant(), Ok(9));
    assert_eq!(whole(9, 8, false).as_int(), Ok((9, IntKind::new(8, false))));
    assert_eq!(Value::Bool(false).as_bool(), Ok(false));
    assert!(Value::Uninit.is_uninit());
}

#[test]
fn pointer_sized_types_are_64_bit() {
    assert_eq!(
        int_kind(&ty(TyShape::Uint(UintTy::Usize))),
        Some(IntKind::new(64, false))
    );
    assert_eq!(
        int_kind(&ty(TyShape::Int(IntTy::Isize))),
        Some(IntKind::new(64, true))
    );
    assert_eq!(
        int_kind(&ty(TyShape::Uint(UintTy::U128))),
        Some(IntKind::new(128, false))
    );
    assert_eq!(
        int_kind(&ty(TyShape::Int(IntTy::I16))),
        Some(IntKind::new(16, true))
    );
    assert_eq!(int_kind(&ty(TyShape::Bool)), None);
    assert_eq!(int_kind(&ty(TyShape::Other)), None);
}

// ---------------------------------------------------------------- driver ---

#[test]
fn names_are_matched_by_substring() {
    assert!(contains("kernel::scatter", "scatter"));
    assert!(contains("kernel::scatter", "kernel::scatter"));
    assert!(contains("kernel", ""));
    assert!(contains("", ""));
    assert!(!contains("scatter", "scattered"));
    assert!(!contains("aab", "aba"));
    assert!(contains("aaab", "aab"));
}

#[test]
fn functions_are_chosen_by_name_and_body() {
    let name = "kernel::scatter";
    assert_eq!(choose_action(name, true, None, None), Action::Print);
    assert_eq!(choose_action(name, false, None, None), Action::Skip);
    assert_eq!(choose_action(name, true, Some("scatter"), None), Action::Print);
    assert_eq!(choose_action(name, true, Some("gather"), None), Action::Skip);
    assert_eq!(choose_action(name, true, None, Some("scatter")), Action::Run);
    // With something to run, nothing else is printed.
    assert_eq!(choose_action(name, true, None, Some("gather")), Action::Skip);
    assert_eq!(
        choose_action(name, true, Some("gather"), Some("scatter")),
        Action::Skip
    );
    assert_eq!(choose_action(name, false, None, Some("scatter")), Action::Skip);
}

#[test]
fn outcomes_and_listings_read_as_documented() {
    assert_eq!(
        describe_outcome("shifts", &Ok(whole(32, 32, false))),
        "shifts = 32_u32"
    );
    assert_eq!(
        describe_outcome("overflows", &Err("attempt to add with overflow".to_string())),
        "overflows stopped: attempt to add with overflow"
    );
    let blocks = vec![
        BlockText {
            statements: vec!["Nop".to_string(), "StorageDead(1)".to_string()],
            terminator: "Goto { target: 1 }".to_string(),
        },
        BlockText {
            statements: Vec::new(),
            terminator: "Return".to_string(),
        },
    ];
    assert_eq!(
        listing("kernel::scatter", 15, &blocks),
        "fn kernel::scatter\n  2 block(s), 15 local(s)\n  bb0:\n    Nop\n    StorageDead(1)\n    \
         -> Goto { target: 1 }\n  bb1:\n    -> Return\n"
    );
}

#[test]
fn the_sysroot_is_supplied_once() {
    let args = |list: &[&str]| list.iter().map(|s| s.to_string()).collect::<Vec<_>>();
    let plain = args(&["riri-mir", "kernel.rs"]);
    assert!(!has_sysroot(&plain));
    assert_eq!(
        with_sysroot(plain.clone(), Some("/toolchain".to_string())),
        args(&["riri-mir", "kernel.rs", "--sysroot", "/toolchain"])
    );
    assert_eq!(with_sysroot(plain.clone(), None), plain);
    let given = args(&["riri-mir", "--sysroot=/other"]);
    assert!(has_sysroot(&given));
    assert_eq!(
        with_sysroot(given.clone(), Some("/toolchain".to_string())),
        given
    );
}
