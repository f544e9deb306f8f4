use winrun::call::TracedCall;
use winrun::dispatch::dispatch;
use winrun::dispatch::dispatch_all;
use winrun::pipeline::analyze_non_native;
use winrun::pipeline::check_recovered;
use winrun::pipeline::recover_calls;
use winrun::pipeline::FailureKind;
use winrun::plan::render_plan;
use winrun::reconcile::reconcile;
use winrun::scan::parse_symbol_call_case_insensitive;
use winrun::scan::scan_symbols_in_bytes;
use winrun::scan::static_scan;
use winrun::sniff::can_run_natively;
use winrun::sniff::classify;
use winrun::sniff::detect_format;
use winrun::sniff::FormatTag;
use winrun::strings::extract_ascii_strings;

fn call(f: &str, args: &[&str]) -> TracedCall {
    TracedCall::new(f.to_string(), args.iter().map(|a| a.to_string()).collect())
}

fn sigs(calls: &[TracedCall]) -> Vec<String> {
    calls.iter().map(|c| c.signature()).collect()
}

#[test]
fn classify_by_magic() {
    assert_eq!(classify(&[0x7F, b'E', b'L', b'F', 2, 1]), FormatTag::Native);
    assert_eq!(classify(b"MZ\x90\x00"), FormatTag::Foreign);
    assert_eq!(classify(b"MZ"), FormatTag::Foreign);
    assert_eq!(classify(&[0x7F, b'E', b'L']), FormatTag::Unknown);
    assert_eq!(classify(b""), FormatTag::Unknown);
    assert_eq!(classify(b"#!/bin/sh"), FormatTag::Unknown);
    assert_eq!(detect_format(&[0x7F, b'E', b'L', b'F']), "ELF");
    assert_eq!(detect_format(b"MZ"), "PE/COFF (Windows)");
    assert_eq!(detect_format(b"ZM"), "unknown");
}

#[test]
fn native_image_takes_native_path() {
    let elf = [0x7F, b'E', b'L', b'F', 2, 1, 1, 0];
    assert!(can_run_natively(&elf));
    assert!(!can_run_natively(b"MZ\x00\x00"));
    assert!(!can_run_natively(b"\x7FELX"));
}

#[test]
fn extracts_printable_runs() {
    let bytes = b"ab\x00abcd\x01hello world\xffxyz\x00\x00tail";
    let runs = extract_ascii_strings(bytes);
    assert_eq!(runs, vec!["abcd".to_string(), "hello world".to_string(), "tail".to_string()]);
    assert!(extract_ascii_strings(b"").is_empty());
    assert!(extract_ascii_strings(b"abc").is_empty());
    assert_eq!(extract_ascii_strings(b"    "), vec!["    ".to_string()]);
}

#[test]
fn extraction_splits_at_non_printable_byte() {
    let bytes = b"first run\x05second run\x00ab";
    let k = 9;
    let whole = extract_ascii_strings(bytes);
    let mut halves = extract_ascii_strings(&bytes[..k]);
    halves.extend(extract_ascii_strings(&bytes[k + 1..]));
    assert_eq!(whole, halves);
    assert_eq!(whole, vec!["first run".to_string(), "second run".to_string()]);
}

#[test]
fn parses_call_case_insensitively() {
    let c = parse_symbol_call_case_insensitive("x = createfilea( \"out.txt\", 1,, 0 ) ;", "CreateFileA");
    assert_eq!(c.function, "CreateFileA");
    assert_eq!(c.args, vec!["\"out.txt\"".to_string(), "1".to_string(), "0".to_string()]);
    let d = parse_symbol_call_case_insensitive("ExitProcess", "ExitProcess");
    assert!(d.args.is_empty());
    let e = parse_symbol_call_case_insensitive("Sleep (100)", "Sleep");
    assert!(e.args.is_empty());
    let f = parse_symbol_call_case_insensitive("Sleep(100", "Sleep");
    assert!(f.args.is_empty());
}

#[test]
fn blob_scan_finds_names_in_catalog_order() {
    let found = scan_symbols_in_bytes(b"\x00exitprocess\x00SLEEP\xff");
    assert_eq!(found, vec!["ExitProcess".to_string(), "Sleep".to_string()]);
    assert!(scan_symbols_in_bytes(b"nothing here").is_empty());
}

#[test]
fn static_scan_orders_line_hits_before_blob_hits() {
    let hits = static_scan(b"Sleep(5)\x00");
    assert_eq!(sigs(&hits), vec!["Sleep(5)".to_string(), "Sleep()".to_string()]);
}

#[test]
fn scenario_create_then_exit() {
    let bytes = b"MZ\x00\x00CreateFileA(\"out.txt\", 1, 0)\x00\x00ExitProcess()\x00";
    let a = analyze_non_native(bytes);
    assert_eq!(a.winapi_calls.len(), 2);
    assert_eq!(a.winapi_calls[0].function, "CreateFileA");
    assert_eq!(
        a.winapi_calls[0].args,
        vec!["\"out.txt\"".to_string(), "1".to_string(), "0".to_string()]
    );
    assert_eq!(a.winapi_calls[1].function, "ExitProcess");
    assert!(a.winapi_calls[1].args.is_empty());
    let plan = render_plan(&a.winapi_calls);
    let lines: Vec<&str> = plan.lines().collect();
    assert_eq!(lines.len(), 3);
    assert_eq!(lines[0], "# waygate execution plan");
    assert_eq!(lines[1], "1\tCreateFileA\tvalue:string=\"out.txt\"||value:int=1||value:int=0");
    assert_eq!(lines[2], "2\tExitProcess\t");
    let outcomes = dispatch_all(&a.winapi_calls);
    assert_eq!(
        outcomes,
        vec![
            Ok("CreateFileA stub called with args: \"out.txt\", 1, 0".to_string()),
            Ok("ExitProcess stub called".to_string())
        ]
    );
    assert_eq!(outcomes[1], dispatch(&a.winapi_calls[1].function, &a.winapi_calls[1].args));
}

#[test]
fn scenario_zero_arg_call_first_is_kept() {
    let bytes = b"ReadFile()\x00padding\x00ReadFile(handle=5)\x00";
    let a = analyze_non_native(bytes);
    assert_eq!(sigs(&a.winapi_calls), vec!["ReadFile()".to_string(), "ReadFile(handle=5)".to_string()]);
}

#[test]
fn zero_arg_call_after_args_is_suppressed() {
    let input = vec![call("Sleep", &["5"]), call("Sleep", &[]), call("Sleep", &["5"]), call("Sleep", &["6"])];
    let out = reconcile(&input);
    assert_eq!(sigs(&out), vec!["Sleep(5)".to_string(), "Sleep(6)".to_string()]);
}

#[test]
fn reconciled_signatures_are_unique() {
    let input = vec![
        call("ReadFile", &[]),
        call("ReadFile", &[]),
        call("WriteFile", &["a", "b"]),
        call("WriteFile", &["a,b"]),
        call("ReadFile", &["h"]),
        call("ReadFile", &[]),
    ];
    let out = reconcile(&input);
    assert_eq!(sigs(&out), vec!["ReadFile()".to_string(), "WriteFile(a,b)".to_string(), "ReadFile(h)".to_string()]);
}

#[test]
fn traced_calls_come_before_static_hits() {
    let traced = vec![call("Sleep", &["ms=10"])];
    let out = recover_calls(&traced, b"Sleep()\x00GetTickCount\x00");
    assert_eq!(sigs(&out), vec!["Sleep(ms=10)".to_string(), "GetTickCount()".to_string()]);
}

#[test]
fn foreign_image_without_hits_is_unsupported() {
    let empty = analyze_non_native(b"MZ\x00\x00nothing to see\x00");
    assert_eq!(check_recovered(&empty), Err(FailureKind::UnsupportedBinary));
    assert_eq!(check_recovered(&analyze_non_native(b"MZ\x00Sleep\x00")), Ok(()));
}

#[test]
fn dispatch_continues_after_a_failure() {
    let calls = vec![call("Bogus", &[]), call("Sleep", &["1"])];
    let outcomes = dispatch_all(&calls);
    assert_eq!(
        outcomes,
        vec![
            Err("waygate: symbol 'Bogus' is not implemented".to_string()),
            Ok("Sleep stub called with args: 1".to_string())
        ]
    );
}

#[test]
fn zero_arg_calls_after_first_call_with_args_all_dropped() {
    let input = vec![
        call("Sleep", &["5"]),
        call("Sleep", &["5"]),
        call("Sleep", &[]),
        call("ReadFile", &[]),
        call("Sleep", &[]),
    ];
    let out = reconcile(&input);
    assert_eq!(sigs(&out), vec!["Sleep(5)".to_string(), "ReadFile()".to_string()]);
}

#[test]
fn first_zero_arg_call_stays_ahead_of_later_calls_with_args() {
    let input = vec![
        call("Sleep", &[]),
        call("Sleep", &[]),
        call("Sleep", &["1"]),
        call("Sleep", &[]),
        call("Sleep", &["2"]),
    ];
    let out = reconcile(&input);
    assert_eq!(sigs(&out), vec!["Sleep()".to_string(), "Sleep(1)".to_string(), "Sleep(2)".to_string()]);
}
