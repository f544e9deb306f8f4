use winrun::call::TracedCall;
use winrun::dispatch::dispatch;
use winrun::infer::infer_arg_type;
use winrun::infer::ArgType;
use winrun::libs::unresolved_libs;
use winrun::pipeline::native_plan_text;
use winrun::pipeline::parse_args;
use winrun::pipeline::plan_file_name;
use winrun::pipeline::FailureKind;
use winrun::pipeline::Mode;
use winrun::plan::format_typed_arg;
use winrun::plan::render_plan;
use winrun::plan::typed_args_for_call;
use winrun::trace::build_gdb_script;
use winrun::trace::parse_arg_line;
use winrun::trace::parse_function_name;
use winrun::trace::parse_gdb_trace;
use winrun::trace::parse_trace_block;

fn owned(v: &[&str]) -> Vec<String> {
    v.iter().map(|s| s.to_string()).collect()
}

#[test]
fn infers_each_type() {
    assert_eq!(infer_arg_type(""), ArgType::Unknown);
    assert_eq!(infer_arg_type("   "), ArgType::Unknown);
    assert_eq!(infer_arg_type("TRUE"), ArgType::Bool);
    assert_eq!(infer_arg_type(" false "), ArgType::Bool);
    assert_eq!(infer_arg_type("\"x\""), ArgType::Str);
    assert_eq!(infer_arg_type("'x'"), ArgType::Str);
    assert_eq!(infer_arg_type("\""), ArgType::Unknown);
    assert_eq!(infer_arg_type("'"), ArgType::Unknown);
    assert_eq!(infer_arg_type("''"), ArgType::Str);
    assert_eq!(infer_arg_type("0x1F"), ArgType::Pointer);
    assert_eq!(infer_arg_type("0x"), ArgType::Pointer);
    assert_eq!(infer_arg_type("0xZZ"), ArgType::Unknown);
    assert_eq!(infer_arg_type("-42"), ArgType::Int);
    assert_eq!(infer_arg_type("+7"), ArgType::Int);
    assert_eq!(infer_arg_type("9223372036854775807"), ArgType::Int);
    assert_eq!(infer_arg_type("-9223372036854775808"), ArgType::Int);
    assert_eq!(infer_arg_type("9223372036854775808"), ArgType::Float);
    assert_eq!(infer_arg_type("1.5e3"), ArgType::Float);
    assert_eq!(infer_arg_type(".5"), ArgType::Float);
    assert_eq!(infer_arg_type("1."), ArgType::Float);
    assert_eq!(infer_arg_type("-inf"), ArgType::Float);
    assert_eq!(infer_arg_type("NaN"), ArgType::Float);
    assert_eq!(infer_arg_type("1e"), ArgType::Unknown);
    assert_eq!(infer_arg_type("."), ArgType::Unknown);
    assert_eq!(infer_arg_type("-"), ArgType::Unknown);
    assert_eq!(infer_arg_type("NULL"), ArgType::Pointer);
    assert_eq!(infer_arg_type("nullptr"), ArgType::Pointer);
    assert_eq!(infer_arg_type("/tmp/a"), ArgType::Path);
    assert_eq!(infer_arg_type("kernel32.dll"), ArgType::Path);
    assert_eq!(infer_arg_type("libc.so.6"), ArgType::Path);
    assert_eq!(infer_arg_type("KERNEL32.DLL"), ArgType::Unknown);
    assert_eq!(infer_arg_type("abc"), ArgType::Unknown);
}

#[test]
fn float_grammar_matches_std() {
    for s in ["1.5e3", ".5", "1.", "-inf", "+Infinity", "nan", "1E+5", "00.1e-2", "1e", "e5", ".", "+", "1.2.3", "0x1p3", "1_0"] {
        let std_float = s.parse::<f64>().is_ok();
        let std_int = s.parse::<i64>().is_ok();
        let expected = if std_int {
            ArgType::Int
        } else if std_float {
            ArgType::Float
        } else {
            ArgType::Unknown
        };
        assert_eq!(infer_arg_type(s), expected, "{s}");
    }
}

#[test]
fn labels_are_plan_names() {
    assert_eq!(ArgType::Bool.label(), "bool");
    assert_eq!(ArgType::Str.label(), "string");
    assert_eq!(ArgType::Pointer.label(), "pointer");
    assert_eq!(ArgType::Int.label(), "int");
    assert_eq!(ArgType::Float.label(), "float");
    assert_eq!(ArgType::Path.label(), "path");
    assert_eq!(ArgType::Unknown.label(), "unknown");
}

#[test]
fn formats_typed_arguments() {
    assert_eq!(format_typed_arg("handle=5"), "handle:int=5");
    assert_eq!(format_typed_arg(" x = true "), "x:bool=true");
    assert_eq!(format_typed_arg("\"out.txt\""), "value:string=\"out.txt\"");
    assert_eq!(format_typed_arg("a=b=c"), "a:unknown=b=c");
    assert_eq!(format_typed_arg("="), ":unknown=");
    let c = TracedCall::new("CreateFileA".to_string(), vec!["p=/tmp/x".to_string(), "0".to_string()]);
    assert_eq!(typed_args_for_call(&c), vec!["p:path=/tmp/x".to_string(), "value:int=0".to_string()]);
}

#[test]
fn plan_records_split_back_into_calls() {
    let calls = vec![
        TracedCall::new("Sleep".to_string(), vec!["100".to_string()]),
        TracedCall::new("ExitProcess".to_string(), vec![]),
        TracedCall::new("WriteFile".to_string(), vec!["h=0x10".to_string(), "\"hi\"".to_string()]),
    ];
    let plan = render_plan(&calls);
    let records: Vec<&str> = plan.lines().skip(1).collect();
    assert_eq!(records.len(), 3);
    for (i, (rec, c)) in records.iter().zip(calls.iter()).enumerate() {
        let fields: Vec<&str> = rec.split('\t').collect();
        assert_eq!(fields.len(), 3);
        assert_eq!(fields[0], (i + 1).to_string());
        assert_eq!(fields[1], c.function);
        let typed: Vec<String> = if fields[2].is_empty() {
            vec![]
        } else {
            fields[2].split("||").map(|s| s.to_string()).collect()
        };
        assert_eq!(typed, typed_args_for_call(c));
    }
    assert_eq!(render_plan(&[]), "# waygate execution plan\n");
}

#[test]
fn parses_backtrace_function_names() {
    assert_eq!(parse_function_name("#0  CreateFileA (a=1) at x.c:3"), Some("CreateFileA".to_string()));
    assert_eq!(parse_function_name("#1  0x00007ffff in foo ()"), None);
    assert_eq!(parse_function_name("#2 0xSleep"), None);
    assert_eq!(parse_function_name("#0 0xdeadbeef in f ()"), None);
    assert_eq!(parse_function_name("#3"), None);
    assert_eq!(parse_function_name("#4 "), None);
    assert_eq!(parse_function_name("Sleep (ms=1)"), None);
}

#[test]
fn parses_argument_lines() {
    assert_eq!(parse_arg_line("  ms = 10 "), Some(("ms".to_string(), "10".to_string())));
    assert_eq!(parse_arg_line("a=b=c"), Some(("a".to_string(), "b=c".to_string())));
    assert_eq!(parse_arg_line("#0 f (a=1)"), None);
    assert_eq!(parse_arg_line(" = 3"), None);
    assert_eq!(parse_arg_line("no args"), None);
}

#[test]
fn block_yields_catalog_call_only() {
    let block = owned(&["#0  Sleep (ms=10) at k.c:1", "ms = 10", "#1  0x0000 in main ()"]);
    let c = parse_trace_block(&block).unwrap();
    assert_eq!(c.function, "Sleep");
    assert_eq!(c.args, vec!["ms=10".to_string()]);
    assert_eq!(c.backtrace, vec!["#0  Sleep (ms=10) at k.c:1".to_string(), "#1  0x0000 in main ()".to_string()]);
    let other = owned(&["#0  helper () at k.c:1"]);
    assert!(parse_trace_block(&other).is_none());
    assert!(parse_trace_block(&[]).is_none());
}

#[test]
fn parses_debugger_output() {
    let out = "Breakpoint 1 at 0x1\n===TRACE_EVENT_BEGIN===\n#0  Sleep (ms=10) at k.c:1\r\nms = 10\n===TRACE_EVENT_END===\nnoise = 1\n===TRACE_EVENT_BEGIN===\n#0  helper () at k.c:9\n===TRACE_EVENT_END===\n===TRACE_EVENT_BEGIN===\n#0  ExitProcess (code=0) at k.c:2\n===TRACE_EVENT_END===\n";
    let calls = parse_gdb_trace(out);
    assert_eq!(calls.len(), 2);
    assert_eq!(calls[0].function, "Sleep");
    assert_eq!(calls[0].args, vec!["ms=10".to_string()]);
    assert_eq!(calls[0].backtrace, vec!["#0  Sleep (ms=10) at k.c:1".to_string()]);
    assert_eq!(calls[1].function, "ExitProcess");
    assert!(calls[1].args.is_empty());
    assert!(parse_gdb_trace("").is_empty());
}

#[test]
fn script_breaks_on_every_catalog_name() {
    let script = build_gdb_script();
    let lines: Vec<&str> = script.lines().collect();
    assert_eq!(lines[0], "set pagination off");
    assert_eq!(lines[4], "rbreak ^CreateFileA$");
    assert_eq!(lines[39], "rbreak ^GetLocalTime$");
    assert_eq!(lines[40], "run");
    assert_eq!(lines[42], "while $i < 128");
    assert_eq!(lines[44], "    printf \"===TRACE_EVENT_BEGIN===\\n\"");
    assert_eq!(*lines.last().unwrap(), "end");
    assert_eq!(lines.len(), 55);
    assert!(!script.ends_with('\n'));
}

#[test]
fn dispatch_answers_catalog_names() {
    assert_eq!(dispatch("Sleep", &[]), Ok("Sleep stub called".to_string()));
    assert_eq!(
        dispatch("WriteFile", &["h".to_string(), "buf".to_string()]),
        Ok("WriteFile stub called with args: h, buf".to_string())
    );
    assert_eq!(dispatch("Foo", &[]), Err("waygate: symbol 'Foo' is not implemented".to_string()));
    assert_eq!(dispatch("sleep", &[]), Err("waygate: symbol 'sleep' is not implemented".to_string()));
}

#[test]
fn lists_shared_libraries_sorted() {
    let lines = vec!["needs libfoo.so and libc.so".to_string(), "(LIBFOO.SO), libm.so.6".to_string()];
    assert_eq!(unresolved_libs(&lines), vec!["libc.so".to_string(), "libfoo.so".to_string()]);
    assert!(unresolved_libs(&[]).is_empty());
}

#[test]
fn reads_invocations() {
    let inv = parse_args(&["prog.exe".to_string()]).unwrap();
    assert_eq!((inv.mode, inv.debug, inv.target.as_str()), (Mode::Run, false, "prog.exe"));
    let inv = parse_args(&["-d".to_string(), "a".to_string()]).unwrap();
    assert_eq!((inv.mode, inv.debug), (Mode::Run, true));
    let inv = parse_args(&["-c".to_string(), "a".to_string()]).unwrap();
    assert_eq!((inv.mode, inv.debug), (Mode::CompileOnly, false));
    let inv = parse_args(&["-dc".to_string(), "a".to_string()]).unwrap();
    assert_eq!((inv.mode, inv.debug), (Mode::CompileOnly, true));
    assert!(matches!(parse_args(&[]), Err(FailureKind::Usage)));
    assert!(matches!(parse_args(&["-x".to_string(), "a".to_string()]), Err(FailureKind::Usage)));
}

#[test]
fn names_plan_files() {
    assert_eq!(plan_file_name("app.exe"), "app.exe.waygate.plan");
    assert_eq!(native_plan_text(), "# native ELF: no waygate translation required\n");
}
