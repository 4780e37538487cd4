use disk_scout::ignore::IgnoreConfig;
use disk_scout::output::OutputFormat;
use disk_scout::plan::ScanPlan;
use disk_scout::report::{escape_json_string, render_result_json, render_result_text};
use disk_scout::scanner::{ScanErrorSample, ScanErrors, ScanResult, ScanStats};
use disk_scout::topn::SizedPath;

fn plan(format: OutputFormat) -> ScanPlan {
    ScanPlan {
        root: "/tmp/root".into(),
        top_files: 2,
        top_dirs: 2,
        min_size: 0,
        format,
        ignore: IgnoreConfig::default(),
    }
}

fn sample_result(root: &str) -> ScanResult {
    ScanResult {
        root: root.into(),
        stats: ScanStats {
            files_seen: 3,
            dirs_seen: 2,
            bytes_total: 2048,
            errors_total: 1,
            duration_ms: 12,
        },
        top_files: vec![SizedPath {
            path: "/tmp/root/a.bin".into(),
            size: 2048,
        }],
        top_dirs: vec![SizedPath {
            path: "/tmp/root".into(),
            size: 2048,
        }],
        errors: ScanErrors {
            total: 1,
            samples: vec![ScanErrorSample {
                path: "/tmp/root/x".into(),
                message: "denied".to_string(),
            }],
        },
    }
}

#[test]
fn renders_text_report() {
    let plan = plan(OutputFormat::Text);
    let result = sample_result(&plan.root);

    let out = render_result_text(&plan, &result);
    assert!(out.contains("root: "));
    assert!(out.contains("bytes_total: "));
    assert!(out.contains("KiB"));
    assert!(out.contains("top_files:"));
    assert!(out.contains("top_dirs:"));
}

#[test]
fn renders_json_report() {
    let plan = plan(OutputFormat::Json);

    let result = ScanResult {
        root: plan.root.clone(),
        stats: ScanStats {
            files_seen: 1,
            dirs_seen: 1,
            bytes_total: 1,
            errors_total: 0,
            duration_ms: 1,
        },
        top_files: vec![],
        top_dirs: vec![],
        errors: ScanErrors::default(),
    };

    let out = render_result_json(&plan, &result);
    assert!(out.contains("\"meta\""));
    assert!(out.contains("\"scan_root\""));
    assert!(out.contains("\"stats\""));
    assert!(out.contains("\"top_files\""));
    assert!(out.contains("\"top_dirs\""));
    assert!(out.contains("\"errors\""));
}

#[test]
fn text_report_matches_documented_example() {
    let plan = plan(OutputFormat::Text);
    let result = sample_result(&plan.root);
    let expected = "root: /tmp/root\n\
bytes_total: 2.00 KiB (2048)\n\
files_seen: 3\n\
dirs_seen: 2\n\
errors_total: 1\n\
duration_ms: 12\n\
\n\
top_files:\n  2.00 KiB (2048) /tmp/root/a.bin\n\
\n\
top_dirs:\n  2.00 KiB (2048) /tmp/root\n";
    assert_eq!(render_result_text(&plan, &result), expected);
}

#[test]
fn json_report_matches_documented_example() {
    let plan = plan(OutputFormat::Json);
    let result = sample_result(&plan.root);
    let expected = r#"{
  "meta": {
    "scan_root": "/tmp/root",
    "stats": {
      "bytes_total": 2048,
      "files_seen": 3,
      "dirs_seen": 2,
      "errors_total": 1,
      "duration_ms": 12
    }
  },
  "top_files": [
    { "size_bytes": 2048, "path": "/tmp/root/a.bin" }
  ],
  "top_dirs": [
    { "size_bytes": 2048, "path": "/tmp/root" }
  ],
  "errors": {
    "total": 1,
    "samples": [
      { "path": "/tmp/root/x", "message": "denied" }
    ]
  }
}
"#;
    assert_eq!(render_result_json(&plan, &result), expected);
}

#[test]
fn json_lists_separate_items_with_commas() {
    let plan = plan(OutputFormat::Json);
    let mut result = sample_result(&plan.root);
    result.top_files = vec![
        SizedPath { path: "/r/b".into(), size: 30 },
        SizedPath { path: "/r/a".into(), size: 20 },
    ];
    let out = render_result_json(&plan, &result);
    assert!(out.contains(
        "    { \"size_bytes\": 30, \"path\": \"/r/b\" },\n    { \"size_bytes\": 20, \"path\": \"/r/a\" }\n  ],"
    ));
}

#[test]
fn escapes_json_strings() {
    assert_eq!(escape_json_string("plain"), "plain");
    assert_eq!(escape_json_string("a\"b"), "a\\\"b");
    assert_eq!(escape_json_string("C:\\dir"), "C:\\\\dir");
    assert_eq!(escape_json_string("l1\nl2\r\t"), "l1\\nl2\\r\\t");
    assert_eq!(escape_json_string("\u{1}\u{1f}\u{7f}\u{9f}"), "\\u0001\\u001f\\u007f\\u009f");
    assert_eq!(escape_json_string("中文 é"), "中文 é");
}

#[test]
fn json_paths_are_escaped() {
    let mut plan = plan(OutputFormat::Json);
    plan.root = "C:\\data \"x\"".into();
    let result = ScanResult {
        root: plan.root.clone(),
        stats: ScanStats {
            files_seen: 0,
            dirs_seen: 0,
            bytes_total: 0,
            errors_total: 0,
            duration_ms: 0,
        },
        top_files: vec![],
        top_dirs: vec![],
        errors: ScanErrors::default(),
    };
    let out = render_result_json(&plan, &result);
    assert!(out.contains("\"scan_root\": \"C:\\\\data \\\"x\\\"\","));
}

/// A JSON string-body reader: the escapes of JSON, no surrogate pairs needed here.
fn json_decode(t: &str) -> Option<String> {
    let mut out = String::new();
    let mut it = t.chars();
    while let Some(c) = it.next() {
        if c == '"' || (c as u32) < 0x20 {
            return None;
        }
        if c != '\\' {
            out.push(c);
            continue;
        }
        match it.next()? {
            '"' => out.push('"'),
            '\\' => out.push('\\'),
            '/' => out.push('/'),
            'b' => out.push('\u{8}'),
            'f' => out.push('\u{c}'),
            'n' => out.push('\n'),
            'r' => out.push('\r'),
            't' => out.push('\t'),
            'u' => {
                let hex: String = (0..4).map(|_| it.next()).collect::<Option<String>>()?;
                out.push(char::from_u32(u32::from_str_radix(&hex, 16).ok()?)?);
            }
            _ => return None,
        }
    }
    Some(out)
}

#[test]
fn escaped_strings_decode_to_themselves() {
    let samples = [
        "", "plain", "a\"b", "C:\\dir\\", "\\\"", "l1\nl2\r\t", "\u{0}\u{1}\u{1f}\u{7f}\u{80}\u{9f}\u{a0}",
        "中文 é \u{1F600}", "/slash/", "\\u0041",
    ];
    for s in samples {
        assert_eq!(json_decode(&escape_json_string(s)).as_deref(), Some(s), "{s:?}");
    }
    for code in 0u32..0x300 {
        if let Some(c) = char::from_u32(code) {
            let s = format!("x{c}y{c}");
            assert_eq!(json_decode(&escape_json_string(&s)), Some(s));
        }
    }
}
