use dqir::arena::{Arena, Block, EntityId, FuncId, Value};
use dqir::function::Function;
use dqir::inst::{CmpOp, Immediate, Instruction};
use dqir::lexer::{Lexer, Token};
use dqir::module::Module;
use dqir::opt::{optimize_function, rewrite_operands, FoldOp};
use dqir::parser::{parse, FloatLiterals};
use dqir::printer::FloatText;
use dqir::types::Type;
use std::collections::HashSet;

fn fold_float(op: FoldOp, a: Immediate, b: Immediate) -> Immediate {
    match (a, b) {
        (Immediate::F64(x), Immediate::F64(y)) => {
            let (fx, fy) = (f64::from_bits(x), f64::from_bits(y));
            let r = match op {
                FoldOp::Add => fx + fy,
                FoldOp::Sub => fx - fy,
                FoldOp::Mul => fx * fy,
            };
            Immediate::F64(r.to_bits())
        }
        (Immediate::F32(x), Immediate::F32(y)) => {
            let (fx, fy) = (f32::from_bits(x), f32::from_bits(y));
            let r = match op {
                FoldOp::Add => fx + fy,
                FoldOp::Sub => fx - fy,
                FoldOp::Mul => fx * fy,
            };
            Immediate::F32(r.to_bits())
        }
        _ => a,
    }
}

#[test]
fn test_arena() {
    let mut arena: Arena<Value, String> = Arena::new();
    let v0 = arena.push("hello".to_string());
    let v1 = arena.push("world".to_string());
    assert_eq!(v0.as_u32(), 0);
    assert_eq!(v1.as_u32(), 1);
    assert_eq!(arena.at(v0), "hello");
    assert_eq!(arena.at(v1), "world");
    assert_eq!(arena.len(), 2);
}

#[test]
fn module_functions_are_changed_in_place() {
    let mut m = Module::new();
    let id = m.add_function(Function::new("f", Type::Void));
    m.get_function_mut(id).unwrap().name = "g".to_string();
    assert_eq!(m.get_function(id).unwrap().name, "g");
    assert!(m.get_function_mut(FuncId(1)).is_none());
}

#[test]
fn arena_writes_through_mutable_references() {
    let mut arena: Arena<Value, u64> = Arena::new();
    arena.push(1);
    arena.push(2);
    arena.push(3);
    for v in arena.values_mut() {
        *v *= 10;
    }
    assert_eq!(arena.as_slice(), &[10, 20, 30]);
    for (k, v) in arena.iter_mut() {
        *v += k.as_u32() as u64;
    }
    assert_eq!(arena.as_slice(), &[10, 21, 32]);
    let keys: Vec<u32> = arena.iter_mut().into_iter().map(|(k, _)| k.as_u32()).collect();
    assert_eq!(keys, vec![0, 1, 2]);
}

#[test]
fn arena_read_after_push_keeps_earlier_keys() {
    let mut arena: Arena<Value, u64> = Arena::new();
    let a = arena.push(7);
    let b = arena.push(9);
    assert_eq!(arena.get(a), Some(&7));
    assert_eq!(arena.get(b), Some(&9));
    assert_eq!(arena.get(Value(2)), None);
    *arena.get_mut(a).unwrap() = 11;
    assert_eq!(arena.get(a), Some(&11));
    assert_eq!(arena.get(b), Some(&9));
    assert!(arena.get_mut(Value(5)).is_none());
}

#[test]
fn test_function_creation() {
    let mut func = Function::new("test", Type::I32);
    let p0 = func.add_param("a", Type::I32);
    let p1 = func.add_param("b", Type::I32);
    let b0 = func.create_block("entry");
    assert_eq!(func.entry_block, Some(b0));

    let (_, res) = func.push_inst(b0, Instruction::Add(p0, p1), Some(Type::I32));
    let res = res.expect("should have result value");

    let (_, _) = func.push_inst(b0, Instruction::Ret(Some(res)), None);

    assert_eq!(func.blocks.at(b0).insts.len(), 2);
    assert_eq!(func.values.at(res).ty, Type::I32);
}

#[test]
fn function_lookups_by_name() {
    let mut func = Function::new("f", Type::I64);
    let a = func.add_param("a", Type::I64);
    let entry = func.create_block("entry");
    let exit = func.create_block("exit");
    assert_eq!(func.block_by_name("exit"), Some(exit));
    assert_eq!(func.block_by_name("entry"), Some(entry));
    assert_eq!(func.block_by_name("nowhere"), None);
    assert_eq!(func.param_by_name("a"), Some(a));
    assert_eq!(func.param_by_name("b"), None);
    assert_eq!(func.entry_block, Some(entry));
}

#[test]
fn test_cmp_op() {
    assert_eq!(CmpOp::from_str("eq"), Ok(CmpOp::Eq));
    assert_eq!(CmpOp::from_str("ugt"), Ok(CmpOp::Ugt));
    assert!(CmpOp::from_str("foo").is_err());
}

#[test]
fn unknown_names_are_reported_with_their_text() {
    assert_eq!(CmpOp::from_str("foo"), Err("Unknown comparison operator: 'foo'".to_string()));
    assert_eq!(Type::from_str("I32"), Err("Unknown IR type: 'I32'".to_string()));
    assert_eq!(Type::from_str(""), Err("Unknown IR type: ''".to_string()));
}

#[test]
fn operands_follow_their_chain_of_replacements() {
    let mut inst = Instruction::Phi(vec![(Block(0), Value(1)), (Block(1), Value(4))]);
    let remap = vec![None, Some(Value(2)), Some(Value(3)), None, None];
    rewrite_operands(&mut inst, &remap);
    assert_eq!(inst, Instruction::Phi(vec![(Block(0), Value(3)), (Block(1), Value(4))]));
    let mut add = Instruction::Add(Value(2), Value(0));
    rewrite_operands(&mut add, &remap);
    assert_eq!(add, Instruction::Add(Value(3), Value(0)));
}

#[test]
fn operator_names_read_back() {
    let all = [
        CmpOp::Eq, CmpOp::Ne, CmpOp::Lt, CmpOp::Le, CmpOp::Gt,
        CmpOp::Ge, CmpOp::Ult, CmpOp::Ule, CmpOp::Ugt, CmpOp::Uge,
    ];
    for op in all {
        assert_eq!(CmpOp::from_str(op.as_str()), Ok(op));
    }
    assert_eq!(CmpOp::from_str("lte"), Err("Unknown comparison operator: 'lte'".to_string()));
}

#[test]
fn test_terminator() {
    let jmp = Instruction::Jmp(Block(0));
    let add = Instruction::Add(Value(0), Value(1));
    assert!(jmp.is_terminator());
    assert!(!add.is_terminator());
}

#[test]
fn test_immediate_and_instruction_hash() {
    let imm1 = Immediate::F64(3.14159f64.to_bits());
    let imm2 = Immediate::F64(3.14159f64.to_bits());
    let imm3 = Immediate::F64((-0.0f64).to_bits());
    let imm4 = Immediate::F64(0.0f64.to_bits());

    let mut set = HashSet::new();
    set.insert(imm1);
    assert!(set.contains(&imm2));
    set.insert(imm3);
    set.insert(imm4);
    assert_eq!(set.len(), 3);

    let inst1 = Instruction::Const(Immediate::F64(3.14159f64.to_bits()));
    let inst2 = Instruction::Const(Immediate::F64(3.14159f64.to_bits()));
    let mut inst_set = HashSet::new();
    inst_set.insert(inst1.clone());
    assert!(inst_set.contains(&inst2));
}

#[test]
fn immediate_as_i64_extends_by_kind() {
    assert_eq!(Immediate::I8(-1).as_i64(), -1);
    assert_eq!(Immediate::U8(255).as_i64(), 255);
    assert_eq!(Immediate::U64(u64::MAX).as_i64(), -1);
    assert_eq!(Immediate::I32(-5).as_i64(), -5);
}

#[test]
fn test_module() {
    let mut mod_ir = Module::new();
    mod_ir.add_extern("puts", vec![Type::Ptr], Type::I32);
    assert_eq!(mod_ir.externs.len(), 1);

    let func = Function::new("main", Type::I32);
    let fid = mod_ir.add_function(func);
    assert!(mod_ir.get_function(fid).is_some());
    assert_eq!(mod_ir.get_function_id_by_name("main"), Some(fid));
}

#[test]
fn module_finds_the_last_function_of_a_name() {
    let mut m = Module::new();
    let first = m.add_function(Function::new("dup", Type::I32));
    let second = m.add_function(Function::new("dup", Type::I64));
    assert_ne!(first, second);
    assert_eq!(m.get_function_id_by_name("dup"), Some(second));
    assert_eq!(m.get_function_by_name("dup").unwrap().return_type, Type::I64);
    assert_eq!(m.get_function_id_by_name("none"), None);
}

#[test]
fn names_stay_those_given_when_functions_were_added() {
    let mut m = Module::new();
    let id = m.add_function(Function::new("old", Type::Void));
    m.get_function_mut(id).unwrap().name = "new".to_string();
    assert_eq!(m.get_function_id_by_name("old"), Some(id));
    assert_eq!(m.get_function_by_name("old").unwrap().name, "new");
    assert_eq!(m.get_function_id_by_name("new"), None);
    assert_eq!(m.func_names, vec![("old".to_string(), id)]);
}

#[test]
fn test_type_display_and_parse() {
    let types = [
        Type::I1,
        Type::I8,
        Type::I16,
        Type::I32,
        Type::I64,
        Type::F32,
        Type::F64,
        Type::Ptr,
        Type::Void,
    ];
    for t in types {
        let s = t.to_string();
        let parsed = Type::from_str(&s).expect("should parse successfully");
        assert_eq!(t, parsed);
    }
}

#[test]
fn type_widths_and_unknown_names() {
    assert_eq!(Type::I16.bit_width(), Some(16));
    assert_eq!(Type::Ptr.byte_size(), Some(8));
    assert_eq!(Type::I1.byte_size(), Some(1));
    assert_eq!(Type::Void.bit_width(), None);
    assert_eq!(Type::from_str("i128"), Err("Unknown IR type: 'i128'".to_string()));
}

#[test]
fn test_constant_folding_add() {
    let mut func = Function::new("test", Type::I32);
    let b0 = func.create_block("entry");
    let (_, c10) = func.push_inst(b0, Instruction::Const(Immediate::I64(10)), Some(Type::I32));
    let (_, c20) = func.push_inst(b0, Instruction::Const(Immediate::I64(20)), Some(Type::I32));
    let (_, sum) = func.push_inst(b0, Instruction::Add(c10.unwrap(), c20.unwrap()), Some(Type::I32));
    func.push_inst(b0, Instruction::Ret(Some(sum.unwrap())), None);

    let optimized = optimize_function(&func, &fold_float);
    let printed = optimized.to_string(&FloatText::new());
    assert!(printed.contains("const.int 30"));
    assert!(!printed.contains("add"));
}

#[test]
fn test_cse() {
    let mut func = Function::new("test_cse", Type::I32);
    let p0 = func.add_param("a", Type::I32);
    let p1 = func.add_param("b", Type::I32);
    let b0 = func.create_block("entry");
    let (_, sum1) = func.push_inst(b0, Instruction::Add(p0, p1), Some(Type::I32));
    let (_, sum2) = func.push_inst(b0, Instruction::Add(p0, p1), Some(Type::I32));
    let (_, final_add) = func.push_inst(b0, Instruction::Add(sum1.unwrap(), sum2.unwrap()), Some(Type::I32));
    func.push_inst(b0, Instruction::Ret(Some(final_add.unwrap())), None);

    let optimized = optimize_function(&func, &fold_float);
    let printed = optimized.to_string(&FloatText::new());
    assert_eq!(printed.matches("add %a, %b").count(), 1);
}

#[test]
fn folding_wraps_and_uses_the_float_callback() {
    let mut func = Function::new("wrap", Type::I64);
    let b0 = func.create_block("entry");
    let (_, a) = func.push_inst(b0, Instruction::Const(Immediate::I64(i64::MAX)), Some(Type::I64));
    let (_, one) = func.push_inst(b0, Instruction::Const(Immediate::I64(1)), Some(Type::I64));
    let (_, s) = func.push_inst(b0, Instruction::Add(a.unwrap(), one.unwrap()), Some(Type::I64));
    let (_, x) = func.push_inst(b0, Instruction::Const(Immediate::F64(1.5f64.to_bits())), Some(Type::F64));
    let (_, y) = func.push_inst(b0, Instruction::Const(Immediate::F64(2.0f64.to_bits())), Some(Type::F64));
    let (_, m) = func.push_inst(b0, Instruction::Mul(x.unwrap(), y.unwrap()), Some(Type::F64));
    let (_, k) = func.push_inst(b0, Instruction::Sub(s.unwrap(), m.unwrap()), Some(Type::I64));
    func.push_inst(b0, Instruction::Ret(Some(k.unwrap())), None);

    let optimized = optimize_function(&func, &fold_float);
    let mut texts = FloatText::new();
    texts.f64_text.push((3.0f64.to_bits(), "3".to_string()));
    let printed = optimized.to_string(&texts);
    let expected_int = i64::MIN.wrapping_sub(3.0f64.to_bits() as i64);
    assert!(printed.contains(&format!("const.int {}", expected_int)), "{}", printed);
    assert!(!printed.contains("mul"));
    assert!(!printed.contains("const.float 1.5"));
}

#[test]
fn optimizer_keeps_the_shape_and_the_side_effects() {
    let mut func = Function::new("keep", Type::I64);
    let p = func.add_param("p", Type::Ptr);
    let b0 = func.create_block("entry");
    let (_, c) = func.push_inst(b0, Instruction::Const(Immediate::I64(2)), Some(Type::I64));
    let (_, d) = func.push_inst(b0, Instruction::Add(c.unwrap(), c.unwrap()), Some(Type::I64));
    let (_, dead) = func.push_inst(b0, Instruction::Mul(c.unwrap(), c.unwrap()), Some(Type::I64));
    let _ = dead;
    let (st, _) = func.push_inst(b0, Instruction::Store(d.unwrap(), p, 0), None);
    let (r, _) = func.push_inst(b0, Instruction::Ret(d), None);
    let optimized = optimize_function(&func, &fold_float);
    assert_eq!(optimized.name, func.name);
    assert_eq!(optimized.params, func.params);
    assert_eq!(optimized.return_type, func.return_type);
    assert_eq!(optimized.values.len(), func.values.len());
    assert_eq!(optimized.insts.len(), func.insts.len());
    let before = &func.blocks.at(b0).insts;
    let after = &optimized.blocks.at(b0).insts;
    assert!(after.contains(&st) && after.contains(&r));
    // What stays is in the order it had.
    let mut last = 0;
    for i in after {
        let at = before.iter().position(|x| x == i).unwrap();
        assert!(at >= last);
        last = at;
    }
    assert!(after.len() < before.len());
}

#[test]
fn dead_code_is_removed_but_side_effects_stay() {
    let mut func = Function::new("dce", Type::Void);
    let p = func.add_param("p", Type::Ptr);
    let b0 = func.create_block("entry");
    let (_, c) = func.push_inst(b0, Instruction::Const(Immediate::I64(5)), Some(Type::I64));
    let (_, unused) = func.push_inst(b0, Instruction::Add(c.unwrap(), c.unwrap()), Some(Type::I64));
    let _ = unused;
    func.push_inst(b0, Instruction::Store(c.unwrap(), p, 0), None);
    func.push_inst(b0, Instruction::Ret(None), None);

    let optimized = optimize_function(&func, &fold_float);
    let printed = optimized.to_string(&FloatText::new());
    assert!(printed.contains("    store %1, %p, 0\n"), "{}", printed);
    assert!(!printed.contains("const.int 10"), "{}", printed);
    assert_eq!(printed.matches("const.int").count(), 1, "{}", printed);
}

#[test]
fn test_parse_simple_func() {
    let input = "func @add(%a: i32, %b: i32) -> i32 {\nentry:\n    %sum: i32 = add %a, %b\n    ret %sum\n}";
    let module = parse(input, &FloatLiterals::new()).expect("should parse cleanly");
    assert_eq!(module.functions.len(), 1);
    let func = module.get_function_by_name("add").unwrap();
    assert_eq!(func.params.len(), 2);
    assert_eq!(func.blocks.len(), 1);
    let printed = func.to_string(&FloatText::new());
    assert_eq!(printed, input);
}

#[test]
fn parse_errors_name_the_place() {
    let input = "func @f() -> i32 {\nentry:\n    ret %missing\n}";
    let err = parse(input, &FloatLiterals::new()).unwrap_err();
    assert_eq!(err.message, "Undefined SSA value reference '%missing' in function '@f'");
    assert!(err.to_string().starts_with(&format!("Parse error at line {}, col {}: ", err.line, err.col)), "{}", err.to_string());

    let bad_type = parse("func @g() -> i99 {\nentry:\n    ret\n}", &FloatLiterals::new());
    assert!(bad_type.is_err());

    let unknown_float = parse("func @h() -> f64 {\nentry:\n    %x: f64 = const.float 2.5\n    ret %x\n}", &FloatLiterals::new());
    let e = unknown_float.unwrap_err();
    assert!(e.message.contains("Invalid float literal '2.5'"), "{}", e.message);
}

#[test]
fn test_print_function() {
    let mut func = Function::new("add_two", Type::I32);
    let p0 = func.add_param("a", Type::I32);
    let p1 = func.add_param("b", Type::I32);
    let b0 = func.create_block("entry");
    let (_, res) = func.push_inst(b0, Instruction::Add(p0, p1), Some(Type::I32));
    let res = res.unwrap();
    func.set_value_name(res, "sum");
    let _ = func.push_inst(b0, Instruction::Ret(Some(res)), None);

    let printed = func.to_string(&FloatText::new());
    let expected = "func @add_two(%a: i32, %b: i32) -> i32 {\nentry:\n    %sum: i32 = add %a, %b\n    ret %sum\n}";
    assert_eq!(printed, expected);
}

#[test]
fn printer_names_unnamed_values_by_number() {
    let mut func = Function::new("anon", Type::I64);
    let b0 = func.create_block("entry");
    let (_, c) = func.push_inst(b0, Instruction::Const(Immediate::I64(-7)), Some(Type::I64));
    func.push_inst(b0, Instruction::Ret(Some(c.unwrap())), None);
    let printed = func.to_string(&FloatText::new());
    assert_eq!(printed, "func @anon() -> i64 {\nentry:\n    %0: i64 = const.int -7\n    ret %0\n}");
}

#[test]
fn test_lexer() {
    let input = "func @main(%0: i32) -> i32 {\nentry:\n  %1 = const.int -42\n  ret %1\n}";
    let mut lexer = Lexer::new(input);
    let tokens = lexer.tokenize().expect("should tokenize cleanly");
    assert_eq!(tokens[0].value, Token::Func);
    assert_eq!(tokens[1].value, Token::FuncName("main".to_string()));
    assert_eq!(tokens[2].value, Token::LParen);
    assert_eq!(tokens[3].value, Token::ValueName("0".to_string()));
}

#[test]
fn lexer_reports_unexpected_characters() {
    let mut lexer = Lexer::new("func @f() {\n  $\n}");
    let err = lexer.tokenize().unwrap_err();
    assert_eq!(err.line, 2);
    assert_eq!(err.col, 3);
    assert_eq!(err.message, "Unexpected character: '$'");
}

#[test]
fn lexer_reports_each_kind_of_fault() {
    let cases = [
        ("a -x", 1, 3, "Unexpected character after '-': 'x'"),
        ("a -", 1, 3, "Unexpected end of input after '-'"),
        ("\n  @ f", 2, 3, "Expected identifier after prefix symbol"),
        ("99999999999999999999", 1, 1, "Invalid int literal '99999999999999999999': number too large to fit in target type"),
        ("x -9223372036854775809", 1, 3, "Invalid int literal '-9223372036854775809': number too small to fit in target type"),
    ];
    for (text, line, col, message) in cases {
        let err = Lexer::new(text).tokenize().unwrap_err();
        assert_eq!((err.line, err.col, err.message.as_str()), (line, col, message), "{}", text);
    }
    let ok = Lexer::new("-9223372036854775808").tokenize().unwrap();
    assert_eq!(ok[0].value, Token::Int(i64::MIN));
}

#[test]
fn parse_carries_lex_faults() {
    let err = parse("func @f() -> i32 {\n  #\n}", &FloatLiterals::new()).unwrap_err();
    assert_eq!((err.line, err.col), (2, 3));
    assert_eq!(err.message, "Unexpected character: '#'");
}
