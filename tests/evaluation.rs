use json_preprocessor::ast_builder::build_ast;
use json_preprocessor::builtins::{ArithOp, CmpOp, Num, Request};
use json_preprocessor::evaluation::{Answer, Evaluator, Step};
use json_preprocessor::jsonpp::{EvalError, JsonPP};
use json_preprocessor::projection::{evaluate_output, Json};
use json_preprocessor::tokenizing::{tokenize, Token};

fn to_f64(n: &Num) -> f64 {
    match n {
        Num::Int(i) => *i as f64,
        Num::Float(b) => f64::from_bits(*b),
    }
}

fn fold(op: ArithOp, a: f64, b: f64) -> f64 {
    match op {
        ArithOp::Sum => a + b,
        ArithOp::Sub => a - b,
        ArithOp::Mul => a * b,
        ArithOp::Div => a / b,
        ArithOp::Mod => a % b,
        ArithOp::Pow => a.powf(b),
        ArithOp::Log => b.log(a),
        ArithOp::Min => a.min(b),
        ArithOp::Max => a.max(b),
    }
}

fn number_value(text: &[char]) -> Option<f64> {
    let s: String = text.iter().collect();
    let (mant, exp) = s.split_once('e').unwrap_or((&s, "0"));
    let m: f64 = mant.parse().ok()?;
    let e: f64 = exp.parse().ok()?;
    Some(m * 10.0f64.powf(e))
}

fn parse_text(text: &str) -> Result<JsonPP, EvalError> {
    let chars: Vec<char> = text.chars().collect();
    let tokens = tokenize(&chars)?;
    let mut converted = Vec::new();
    for t in tokens {
        converted.push(match t {
            Token::Number(s) => Token::Float(number_value(&s).ok_or(EvalError::ParseError)?.to_bits()),
            other => other,
        });
    }
    build_ast(&converted)
}

fn answer(req: Request, files: &[(&str, &str)]) -> Answer {
    let file = |p: &Vec<char>| {
        let name: String = p.iter().collect();
        files.iter().find(|(n, _)| *n == name).map(|(_, c)| c.to_string())
    };
    match req {
        Request::FloatFold(op, ns) => {
            let mut acc = to_f64(&ns[0]);
            for n in &ns[1..] {
                acc = fold(op, acc, to_f64(n));
            }
            Answer::Value(JsonPP::Float(acc.to_bits()))
        }
        Request::FloatCompare(op, a, b) => {
            let (x, y) = (to_f64(&a), to_f64(&b));
            Answer::Value(JsonPP::Bool(match op {
                CmpOp::Gt => x > y,
                CmpOp::Lt => x < y,
                CmpOp::Gte => x >= y,
                CmpOp::Lte => x <= y,
            }))
        }
        Request::RoundFloat(b) => Answer::Value(JsonPP::Int(f64::from_bits(b).round() as i64)),
        Request::IntToFloat(i) => Answer::Value(JsonPP::Float((i as f64).to_bits())),
        Request::ParseFloat(s) => match s.iter().collect::<String>().parse::<f64>() {
            Ok(f) => Answer::Value(JsonPP::Float(f.to_bits())),
            Err(_) => Answer::Failed(EvalError::InvalidOperand),
        },
        Request::FloatTexts(bits) => Answer::Texts(
            bits.iter().map(|b| f64::from_bits(*b).to_string().chars().collect()).collect(),
        ),
        Request::Include(p) => match file(&p) {
            Some(c) => Answer::Bytes(c.into_bytes()),
            None => Answer::Failed(EvalError::IOError),
        },
        Request::Import(p) => match file(&p) {
            Some(c) => match parse_text(&c) {
                Ok(v) => Answer::Value(v),
                Err(e) => Answer::Failed(e),
            },
            None => Answer::Failed(EvalError::IOError),
        },
    }
}

fn to_serde(j: Json) -> serde_json::Value {
    match j {
        Json::Null => serde_json::Value::Null,
        Json::Bool(b) => serde_json::Value::Bool(b),
        Json::Int(i) => serde_json::Value::from(i),
        Json::Float(b) => serde_json::Value::from(f64::from_bits(b)),
        Json::String(s) => serde_json::Value::String(s.into_iter().collect()),
        Json::Array(xs) => serde_json::Value::Array(xs.into_iter().map(to_serde).collect()),
        Json::Object(ms) => serde_json::Value::Object(
            ms.into_iter().map(|(k, v)| (k.into_iter().collect::<String>(), to_serde(v))).collect(),
        ),
    }
}

fn run_with_files(text: &str, files: &[(&str, &str)]) -> Result<serde_json::Value, EvalError> {
    let tree = parse_text(text)?;
    let mut ev = Evaluator::new(&tree)?;
    loop {
        let step = ev.advance();
        match step {
            Step::Done => break,
            Step::Working => {}
            Step::Failed(e) => return Err(e),
            Step::Ask(req) => {
                if let Step::Failed(e) = ev.answer(answer(req, files)) {
                    return Err(e);
                }
            }
        }
    }
    Ok(to_serde(evaluate_output(&ev.root)?))
}

fn run(text: &str) -> Result<serde_json::Value, EvalError> {
    run_with_files(text, &[])
}

fn json(text: &str) -> serde_json::Value {
    serde_json::from_str(text).unwrap()
}

fn evaluate_to_equivalent(input: &str, output: &str) {
    assert_eq!(run(input).unwrap(), run(output).unwrap());
}

const WIKIPEDIA: &str = r#"{
  "first_name": "John",
  "last_name": "Smith",
  "is_alive": true,
  "age": 27,
  "address": {
    "street_address": "21 2nd Street",
    "city": "New York",
    "state": "NY",
    "postal_code": "10021-3100"
  },
  "phone_numbers": [
    {"type": "home", "number": "212 555-1234"},
    {"type": "office", "number": "646 555-4567"}
  ],
  "children": ["Catherine", "Thomas", "Trevor"],
  "spouse": null
}"#;

#[test]
fn regular_json() {
    assert_eq!(run(WIKIPEDIA).unwrap(), json(WIKIPEDIA));
}

#[test]
fn strings_formats() {
    let text = r#"["plain", "with \"quotes\"", "tab\there", "line\nbreak", "back\\slash", "", "ünïcödé"]"#;
    assert_eq!(run(text).unwrap(), json(text));
}

#[test]
fn number_formats() {
    let text = r#"[0, 1, -17, 9223372036854775807, -9223372036854775808, 1.5, -2.25, 1e3, 0.1]"#;
    assert_eq!(run(text).unwrap(), json(text));
}

#[test]
fn exotic_number_formats() {
    let text = "[1.2e1.2 1.2E1.2 1.2e-1.2 1.2e+1.2 1.2E+1.2 1.2E-1.2 \
                -1.2e1.2 -1.2E1.2 -1.2e-1.2 -1.2e+1.2 -1.2E+1.2 -1.2E-1.2]";
    let evaluated = run(text).unwrap();
    let serde_json::Value::Array(arr) = evaluated else {
        panic!("Non-array return when parsing exotic number array");
    };
    let pos_exp = 10.0f64.powf(1.2);
    let neg_exp = 10.0f64.powf(-1.2);
    let targets = [
        1.2 * pos_exp,
        1.2 * pos_exp,
        1.2 * neg_exp,
        1.2 * pos_exp,
        1.2 * pos_exp,
        1.2 * neg_exp,
        -1.2 * pos_exp,
        -1.2 * pos_exp,
        -1.2 * neg_exp,
        -1.2 * pos_exp,
        -1.2 * pos_exp,
        -1.2 * neg_exp,
    ];
    assert_eq!(arr.len(), targets.len());
    for (elem, target) in arr.into_iter().zip(targets) {
        let serde_json::Value::Number(val) = elem else {
            panic!("Non-numeric value in the exotic number array");
        };
        assert!(val.is_f64());
        assert_eq!(val.as_f64().unwrap(), target);
    }
}

#[test]
fn commented_json() {
    let commented = r#"{
  // who
  "first_name": "John", /* given */ "last_name": "Smith",
  "age": 27 // years
  /* a block
     over lines */
  "children": ["Catherine" /* eldest */, "Thomas"]
}"#;
    let plain = r#"{"first_name": "John", "last_name": "Smith", "age": 27, "children": ["Catherine", "Thomas"]}"#;
    evaluate_to_equivalent(commented, plain);
}

#[test]
fn sums() {
    evaluate_to_equivalent(
        r#"{"a": (sum 1 2 3), "b": (sum 1.5 2), "c": (sum 10), "d": (sum -4 4)}"#,
        r#"{"a": 6, "b": 3.5, "c": 10, "d": 0}"#,
    );
}

#[test]
fn subs() {
    evaluate_to_equivalent(r#"{"a": (sub 10 4), "b": (sub 1 2.5)}"#, r#"{"a": 6, "b": -1.5}"#);
}

#[test]
fn muls() {
    evaluate_to_equivalent(r#"{"a": (mul 2 3 4), "b": (mul 2 0.25)}"#, r#"{"a": 24, "b": 0.5}"#);
}

#[test]
fn divs() {
    evaluate_to_equivalent(
        r#"{"a": (div 10 4), "b": (div 10.0 4), "c": (div -7 2)}"#,
        r#"{"a": 2, "b": 2.5, "c": -3}"#,
    );
}

#[test]
fn pows() {
    evaluate_to_equivalent(
        r#"{"a": (pow 2 10), "b": (pow 4 0.5), "c": (pow 2 -1), "d": (pow 3 0), "e": (pow 0 0)}"#,
        r#"{"a": 1024, "b": 2.0, "c": 0.5, "d": 1, "e": 1}"#,
    );
}

#[test]
fn logs() {
    let mut expected = serde_json::Map::new();
    expected.insert("a".to_string(), serde_json::Value::from(10));
    expected.insert("b".to_string(), serde_json::Value::from(1000.0f64.log(10.0)));
    expected.insert("c".to_string(), serde_json::Value::from(3));
    assert_eq!(
        run(r#"{"a": (log 2 1024), "b": (log 10 1000.0), "c": (log 3 80)}"#).unwrap(),
        serde_json::Value::Object(expected),
    );
}

#[test]
fn lens() {
    evaluate_to_equivalent(
        r#"{"a": (len "héllo"), "b": (len [1 2 3]), "c": (len {"x": 1}), "d": (len "")}"#,
        r#"{"a": 6, "b": 3, "c": 1, "d": 0}"#,
    );
}

#[test]
fn mins() {
    evaluate_to_equivalent(r#"{"a": (min 3 1 2), "b": (min 1 0.5)}"#, r#"{"a": 1, "b": 0.5}"#);
}

#[test]
fn maxs() {
    evaluate_to_equivalent(r#"{"a": (max 3 1 2), "b": (max 1 2.5)}"#, r#"{"a": 3, "b": 2.5}"#);
}

#[test]
fn mods() {
    evaluate_to_equivalent(
        r#"{"a": (mod 7 3), "b": (mod -7 3), "c": (mod 7.5 2)}"#,
        r#"{"a": 1, "b": -1, "c": 1.5}"#,
    );
}

#[test]
fn nots() {
    evaluate_to_equivalent(
        r#"{"a": (if true false true), "b": (if 0 false true), "c": (if "" false true)}"#,
        r#"{"a": false, "b": true, "c": true}"#,
    );
}

#[test]
fn eqs() {
    evaluate_to_equivalent(
        r#"{"a": (eq 1 1), "b": (eq 1 1.0), "c": (eq [1 2] [1 2]), "d": (eq {"x": 1, "y": 2} {"y": 2, "x": 1}), "e": (eq "a" "b"), "f": (eq 0.0 -0.0)}"#,
        r#"{"a": true, "b": false, "c": true, "d": true, "e": false, "f": true}"#,
    );
}

#[test]
fn lts() {
    evaluate_to_equivalent(r#"{"a": (lt 1 2), "b": (lt 2 1), "c": (lt 1 1.5)}"#, r#"{"a": true, "b": false, "c": true}"#);
}

#[test]
fn ltes() {
    evaluate_to_equivalent(r#"{"a": (lte 2 2), "b": (lte 3 2), "c": (lte 2.0 2)}"#, r#"{"a": true, "b": false, "c": true}"#);
}

#[test]
fn gts() {
    evaluate_to_equivalent(r#"{"a": (gt 2 1), "b": (gt 1 2), "c": (gt 1.5 1)}"#, r#"{"a": true, "b": false, "c": true}"#);
}

#[test]
fn gtes() {
    evaluate_to_equivalent(r#"{"a": (gte 2 2), "b": (gte 1 2), "c": (gte 2 2.5)}"#, r#"{"a": true, "b": false, "c": false}"#);
}

#[test]
fn strs() {
    evaluate_to_equivalent(
        r#"{"a": (str 12), "b": (str true), "c": (str null), "d": (str [1 "a" 2.5]), "e": (str {"k": -3}), "f": (str "s")}"#,
        r#"{"a": "12", "b": "true", "c": "null", "d": "[1, a, 2.5]", "e": "{\"k\": -3}", "f": "s"}"#,
    );
}

#[test]
fn ints() {
    evaluate_to_equivalent(
        r#"{"a": (int 2.6), "b": (int "42"), "c": (int true), "d": (int null), "e": (int "-7")}"#,
        r#"{"a": 3, "b": 42, "c": 1, "d": 0, "e": -7}"#,
    );
}

#[test]
fn floats() {
    evaluate_to_equivalent(
        r#"{"a": (float 2), "b": (float "2.5"), "c": (float true), "d": (float null)}"#,
        r#"{"a": 2.0, "b": 2.5, "c": 1.0, "d": 0.0}"#,
    );
}

#[test]
fn merges() {
    evaluate_to_equivalent(
        r#"{"a": (merge "ab" "cd"), "b": (merge [1] [2 3]), "c": (merge {"x": 1} {"x": 2, "y": 3})}"#,
        r#"{"a": "abcd", "b": [1, 2, 3], "c": {"x": 2, "y": 3}}"#,
    );
}

#[test]
fn ranges() {
    evaluate_to_equivalent(r#"{"a": (range 0 3), "b": (range 3 1), "c": (range -2 0)}"#, r#"{"a": [0, 1, 2], "b": [], "c": [-2, -1]}"#);
}

#[test]
fn simple_dynamic() {
    evaluate_to_equivalent(r#"{"a": (sum (mul 2 3) 1), "b": [(sub 5 (sum 1 1))]}"#, r#"{"a": 7, "b": [3]}"#);
}

#[test]
fn reference_dynamic() {
    evaluate_to_equivalent(
        r#"{"b": (ref "a"), "a": (sum 1 2), "c": (ref "d.[1]"), "d": [10 (mul 2 (ref "a"))]}"#,
        r#"{"b": 3, "a": 3, "c": 6, "d": [10, 6]}"#,
    );
}

#[test]
fn reference_into_import() {
    let files = [("inner.jsonpp", r#"{"n": (sum 1 2)}"#)];
    let out = run_with_files(r#"{"imp": (import "inner.jsonpp"), "x": (ref "imp.n")}"#, &files).unwrap();
    assert_eq!(out, json(r#"{"imp": {"n": 3}, "x": 3}"#));
}

#[test]
fn import_and_include() {
    let files = [("data.jsonpp", "[1 2 (sum 1 2)]"), ("note.txt", "  hello world \n")];
    let out = run_with_files(r#"{"i": (import "data.jsonpp"), "t": (include "note.txt")}"#, &files).unwrap();
    assert_eq!(out, json(r#"{"i": [1, 2, 3], "t": "hello world"}"#));
}

#[test]
fn undefined_if() {
    evaluate_to_equivalent(
        r#"{"v": (if false 1 undefined), "w": [1 (if false 2 undefined) 3], "u": undefined}"#,
        r#"{"w": [1, 3]}"#,
    );
}

#[test]
fn self_ref() {
    evaluate_to_equivalent(
        r#"{"a": {"b": 1, "c": (ref "..b"), "d": (sum (ref "...b") 1)}}"#,
        r#"{"a": {"b": 1, "c": 1, "d": 2}}"#,
    );
}

#[test]
fn keys_vals() {
    let eval = run(
        r#"{"obj": {"key1": 1, "key2": 2, "key3": 3, "key4": 4, "key5": 5}, "keys": (keys (ref "obj")), "values": (values (ref "obj"))}"#,
    )
    .unwrap();
    let serde_json::Value::Object(obj) = eval else {
        panic!("Not an object");
    };
    let serde_json::Value::Array(keys) = obj.get_key_value("keys").unwrap().1 else {
        panic!("Keys is not an array");
    };
    let serde_json::Value::Array(values) = obj.get_key_value("values").unwrap().1 else {
        panic!("Values is not an array");
    };
    for i in 1..=5 {
        assert!(keys.contains(&serde_json::Value::String(format!("key{}", i))));
        assert!(values.contains(&serde_json::Value::Number(i.into())));
    }
}

#[test]
fn def_and_folds() {
    evaluate_to_equivalent(
        r#"{"d": (def x (mul x x)), "sq": (map (ref "d") [1 2 3]),
            "pos": (def x (gt x 0)), "f": (filter (ref "pos") [-1 2 -3 4]),
            "add": (def a b (sum a b)), "r": (reduce (ref "add") [1 2 3 4]),
            "o": (map (ref "d") {"p": 2}), "e": (reduce (ref "add") [])}"#,
        r#"{"sq": [1, 4, 9], "f": [2, 4], "r": 10, "o": {"p": 4}}"#,
    );
}

#[test]
fn def_dyn_def() {
    evaluate_to_equivalent(
        r#"{"mk": (def n (def x (sum x n))), "add2": ((ref "mk") 2), "r": ((ref "add2") 5)}"#,
        r#"{"r": 7}"#,
    );
}

#[test]
fn arithmetic_scenario() {
    assert_eq!(run(r#"{ "x": (sum 1 2 3) }"#).unwrap(), json(r#"{"x": 6}"#));
    assert_eq!(run(r#"{ "x": (div 10 4) }"#).unwrap(), json(r#"{"x": 2}"#));
    assert_eq!(run(r#"{"x": (div 10.0 4)}"#).unwrap(), json(r#"{"x": 2.5}"#));
}

#[test]
fn reference_beside_scenario() {
    assert_eq!(run(r#"{ "a": 10, "b": (ref "..a") }"#).unwrap(), json(r#"{"a": 10, "b": 10}"#));
    assert_eq!(run(r#"{ "a": 10, "b": (ref "a") }"#).unwrap(), json(r#"{"a": 10, "b": 10}"#));
}

#[test]
fn leading_dot_starts_at_own_location() {
    assert_eq!(run(r#"{ "b": {"a": 3, "c": (ref "..a")}, "d": (ref ".") }"#).err(), Some(EvalError::ReferenceCycle));
    assert_eq!(run(r#"{ "a": 10, "b": (ref ".a") }"#).err(), Some(EvalError::ReferenceCycle));
    assert_eq!(
        run(r#"{"d": (def x (mul x x)), "sq": (map (ref ".d") [1 2 3])}"#).err(),
        Some(EvalError::ReferenceCycle),
    );
}

#[test]
fn if_evaluates_both_branches() {
    assert_eq!(run(r#"{ "v": (if true 1 (div 1 0)) }"#).err(), Some(EvalError::DivisionByZero));
    assert_eq!(run(r#"{"v": (if false 1 undefined)}"#).unwrap(), json("{}"));
    assert_eq!(run(r#"[(if false 1 undefined) 2]"#).unwrap(), json("[2]"));
}

#[test]
fn map_with_definition_scenario() {
    assert_eq!(
        run(r#"{"d": (def x (mul x x)), "sq": (map (ref "d") [1 2 3])}"#).unwrap(),
        json(r#"{"sq": [1, 4, 9]}"#),
    );
    assert_eq!(
        run(r#"{"d": (def x (mul x x)), "sq": (map (ref "...d") [1 2 3])}"#).unwrap(),
        json(r#"{"sq": [1, 4, 9]}"#),
    );
}

#[test]
fn cycle_scenario() {
    assert_eq!(run(r#"{"a": (ref ".b"), "b": (ref ".a")}"#).err(), Some(EvalError::ReferenceCycle));
    assert_eq!(run(r#"{"a": (ref "b"), "b": (ref "a")}"#).err(), Some(EvalError::ReferenceCycle));
    assert_eq!(run(r#"{"a": (sum 1 (ref "a"))}"#).err(), Some(EvalError::ReferenceCycle));
}

#[test]
fn import_scenario() {
    let files = [("file", r#"{"n": (sum 1 2)}"#)];
    let out = run_with_files(r#"{"imp": (import "file"), "v": (ref "imp.n")}"#, &files).unwrap();
    assert_eq!(out["v"], json("3"));
}

#[test]
fn strict_json_is_identity() {
    let text = r#"{"a": [1, 2.5, "x", null, true, {"b": []}], "c": {}}"#;
    assert_eq!(run(text).unwrap(), json(text));
}

#[test]
fn comments_do_not_change_evaluation() {
    evaluate_to_equivalent(
        "{ \"a\": (sum 1 /* two */ 2) // three\n, \"b\": [1 /**/ 2] }",
        "{ \"a\": (sum 1 2), \"b\": [1 2] }",
    );
}

#[test]
fn commas_are_optional() {
    evaluate_to_equivalent(r#"{"a": [1, 2, 3], "b": (sum 1, 2), "c": {"x": 1, "y": 2}}"#, r#"{"a": [1 2 3] "b": (sum 1 2) "c": {"x": 1 "y": 2}}"#);
}

#[test]
fn evaluation_is_deterministic() {
    let text = r#"{"k": (keys {"a": 1, "b": 2}), "m": (map (ref "f") [1 2]), "f": (def x (sum x 1)), "s": (str {"p": 1.5})}"#;
    assert_eq!(run(text).unwrap(), run(text).unwrap());
}

#[test]
fn pending_shrinks_without_new_dynamics() {
    let tree = parse_text(r#"{"a": (sum 1 2), "b": (mul (ref "a") 2), "c": [(sub 5 1)]}"#).unwrap();
    let mut ev = Evaluator::new(&tree).unwrap();
    let mut last = ev.pending.len();
    assert_eq!(last, 4);
    loop {
        match ev.advance() {
            Step::Done => break,
            Step::Working => {}
            other => panic!("unexpected step {:?}", other),
        }
        assert!(ev.pending.len() <= last);
        last = ev.pending.len();
    }
    assert_eq!(last, 0);
}

#[test]
fn undefined_never_reaches_output() {
    assert_eq!(
        run(r#"{"a": [undefined, 1, undefined, (def x x)], "b": undefined, "c": {"d": undefined}}"#).unwrap(),
        json(r#"{"a": [1], "c": {}}"#),
    );
}

#[test]
fn definition_call_equals_inlined_body() {
    evaluate_to_equivalent(
        r#"{"f": (def a b (sum (mul a a) b)), "v": ((ref "f") 3 4)}"#,
        r#"{"v": (sum (mul 3 3) 4)}"#,
    );
}

#[test]
fn error_type_mismatch() {
    assert_eq!(run(r#"(sum "a" 1)"#).err(), Some(EvalError::TypeMismatch));
}

#[test]
fn error_arity_mismatch() {
    assert_eq!(run(r#"(div 1)"#).err(), Some(EvalError::ArityMismatch));
    assert_eq!(run(r#"{"f": (def x x), "v": ((ref "f") 1 2)}"#).err(), Some(EvalError::ArityMismatch));
}

#[test]
fn error_division_by_zero() {
    assert_eq!(run(r#"(div 1 0)"#).err(), Some(EvalError::DivisionByZero));
    assert_eq!(run(r#"(mod 1 0.0)"#).err(), Some(EvalError::DivisionByZero));
}

#[test]
fn error_dangling_reference() {
    assert_eq!(run(r#"{"a": (ref "zz")}"#).err(), Some(EvalError::DanglingReference));
    assert_eq!(run(r#"{"a": 1, "b": (ref "a.x")}"#).err(), Some(EvalError::DanglingReference));
}

#[test]
fn error_unknown_function() {
    assert_eq!(run(r#"(frobnicate 1)"#).err(), Some(EvalError::UnknownFunction));
}

#[test]
fn error_io() {
    assert_eq!(run(r#"(include "missing.txt")"#).err(), Some(EvalError::IOError));
}

#[test]
fn error_residual_value() {
    assert_eq!(run(r#"{"a": loose_word}"#).err(), Some(EvalError::ResidualValue));
}

#[test]
fn error_parse() {
    assert_eq!(run("{\"a\": \"unterminated").err(), Some(EvalError::ParseError));
    assert_eq!(run("]").err(), Some(EvalError::ParseError));
}

#[test]
fn error_invalid_operand() {
    assert_eq!(run(r#"(int "abc")"#).err(), Some(EvalError::InvalidOperand));
    assert_eq!(run(r#"(sum 9223372036854775807 1)"#).err(), Some(EvalError::InvalidOperand));
    assert_eq!(run(r#"(log 1 5)"#).err(), Some(EvalError::InvalidOperand));
    assert_eq!(run(r#"(def x x x)"#).err(), Some(EvalError::InvalidOperand));
}

#[test]
fn large_range_and_edge_integers() {
    assert_eq!(run(r#"(len (range 0 1000))"#).unwrap(), json("1000"));
    assert_eq!(run(r#"(div -9223372036854775808 -1)"#).err(), Some(EvalError::InvalidOperand));
    assert_eq!(run(r#"(mod -9223372036854775808 -1)"#).unwrap(), json("0"));
    assert_eq!(run(r#"(pow -1 9999999)"#).unwrap(), json("-1"));
    assert_eq!(run(r#"(str -9223372036854775808)"#).unwrap(), json("\"-9223372036854775808\""));
}

#[test]
fn negative_integer_exponent_is_a_float() {
    assert_eq!(run("(pow 2 -2)").unwrap(), serde_json::Value::from(0.25f64));
    assert_eq!(run("(pow 3 0)").unwrap(), json("1"));
}

#[test]
fn identifiers_and_definitions_are_true() {
    assert_eq!(run(r#"(if loose 1 2)"#).unwrap(), json("1"));
    assert_eq!(run(r#"{"f": (def x x), "v": (if (ref "f") "yes" "no")}"#).unwrap(), json(r#"{"v": "yes"}"#));
    assert_eq!(run(r#"(if undefined 1 2)"#).unwrap(), json("2"));
}

#[test]
fn single_operand_must_be_a_number() {
    assert_eq!(run(r#"(sum "a")"#).err(), Some(EvalError::TypeMismatch));
    assert_eq!(run(r#"(min [1])"#).err(), Some(EvalError::TypeMismatch));
    assert_eq!(run(r#"(max 2.5)"#).unwrap(), serde_json::Value::from(2.5f64));
    assert_eq!(run(r#"(sum 4)"#).unwrap(), json("4"));
}

#[test]
fn finished_tree_holds_no_dynamics() {
    let tree = parse_text(r#"{"a": [(sum 1 2)], "b": (map (ref "f") [1 2]), "f": (def x (mul x 2))}"#).unwrap();
    let mut ev = Evaluator::new(&tree).unwrap();
    loop {
        match ev.advance() {
            Step::Done => break,
            Step::Working => {}
            other => panic!("unexpected step {:?}", other),
        }
    }
    assert!(!json_preprocessor::jsonpp::contains_dynamics(&ev.root));
    assert!(ev.pending.is_empty());
}
