use tegrastats::{decode, CpuCore, Engine, Ram, Swap, Telemetry};

fn cpu_core(load: u8, freq_mhz: u32) -> CpuCore {
    CpuCore { load, freq_mhz }
}

fn temp(t: &Telemetry, i: usize) -> f32 {
    t.thermals[i].temp_c.parse::<f32>().unwrap()
}

#[test]
fn ram_pair_is_read() {
    let t = decode("RAM 2035/31011MB");
    assert_eq!(t.ram, Some(Ram { used_mb: 2035, total_mb: 31011 }));
    let t = decode("uptime 5 RAM 2035/31011MB (lfb 1x4MB) GR3D_FREQ 3%");
    assert_eq!(t.ram, Some(Ram { used_mb: 2035, total_mb: 31011 }));
}

#[test]
fn swap_without_slash_is_dropped() {
    let t = decode("SWAP 0-15505MB RAM 1/2MB");
    assert_eq!(t.swap, None);
    assert_eq!(t.ram, Some(Ram { used_mb: 1, total_mb: 2 }));
}

#[test]
fn cpu_list_gives_cores_in_order() {
    let t = decode("CPU [1%@1190,0%@1190,2%@1190]");
    assert_eq!(t.cpu, vec![cpu_core(1, 1190), cpu_core(0, 1190), cpu_core(2, 1190)]);
}

#[test]
fn thermal_token_is_read() {
    let t = decode("CPU@39.5C");
    assert_eq!(t.thermals.len(), 1);
    assert_eq!(t.thermals[0].name, "CPU");
    assert_eq!(temp(&t, 0), 39.5);
}

#[test]
fn engine_load_is_read() {
    let t = decode("GR3D_FREQ 0%");
    assert_eq!(t.engines, vec![Engine { name: "GR3D".to_string(), load: 0 }]);
}

#[test]
fn decoding_twice_gives_equal_results() {
    let line = "RAM 2035/31011MB SWAP 0/15505MB CPU [1%@1190,0%@1190] GR3D_FREQ 0% CPU@39C";
    assert_eq!(decode(line), decode(line));
}

#[test]
fn full_line_decodes() {
    let t = decode("RAM 2035/31011MB SWAP 0/15505MB CPU [1%@1190,0%@1190] GR3D_FREQ 0% CPU@39C");
    assert_eq!(t.ram, Some(Ram { used_mb: 2035, total_mb: 31011 }));
    assert_eq!(t.swap, Some(Swap { used_mb: 0, total_mb: 15505 }));
    assert_eq!(t.cpu, vec![cpu_core(1, 1190), cpu_core(0, 1190)]);
    assert_eq!(t.engines, vec![Engine { name: "GR3D".to_string(), load: 0 }]);
    assert_eq!(t.thermals.len(), 1);
    assert_eq!(t.thermals[0].name, "CPU");
    assert_eq!(temp(&t, 0), 39.0);
}

#[test]
fn unrecognized_lines_are_empty() {
    assert!(decode("").is_empty());
    assert!(decode("   \t ").is_empty());
    assert!(decode("hello world 42 1/2MB").is_empty());
    assert_eq!(decode("hello"), Telemetry::new());
}

#[test]
fn later_engine_takes_first_label() {
    let t = decode("GR3D_FREQ 5% NVENC_FREQ 7%");
    assert_eq!(
        t.engines,
        vec![
            Engine { name: "GR3D".to_string(), load: 5 },
            Engine { name: "GR3D".to_string(), load: 7 },
        ]
    );
}

#[test]
fn bad_cpu_entries_are_skipped() {
    let t = decode("CPU [1%@1190,off,3%@x,300%@10,,4%@800]");
    assert_eq!(t.cpu, vec![cpu_core(1, 1190), cpu_core(4, 800)]);
}

#[test]
fn brackets_are_trimmed_at_both_ends_only() {
    let t = decode("CPU [[5%@100]]");
    assert_eq!(t.cpu, vec![cpu_core(5, 100)]);
    let t = decode("CPU [5%@1[0]");
    assert_eq!(t.cpu, vec![]);
}

#[test]
fn section_waits_across_thermal_and_engine_tokens() {
    let t = decode("GR3D_FREQ RAM CPU@40C 9% 1/2MB");
    assert_eq!(t.ram, Some(Ram { used_mb: 1, total_mb: 2 }));
    assert_eq!(t.engines, vec![Engine { name: "GR3D".to_string(), load: 9 }]);
    assert_eq!(t.thermals.len(), 1);
    assert_eq!(temp(&t, 0), 40.0);
}

#[test]
fn section_value_is_consumed_even_when_bad() {
    let t = decode("RAM nonsense 1/2MB");
    assert_eq!(t.ram, None);
}

#[test]
fn later_ram_section_replaces_earlier() {
    let t = decode("RAM 1/2MB RAM 3/4MB RAM bad");
    assert_eq!(t.ram, Some(Ram { used_mb: 3, total_mb: 4 }));
}

#[test]
fn number_edges() {
    assert_eq!(decode("RAM 4294967295/1MB").ram, Some(Ram { used_mb: 4294967295, total_mb: 1 }));
    assert_eq!(decode("RAM 4294967296/1MB").ram, None);
    assert_eq!(decode("RAM +5/+6MB").ram, Some(Ram { used_mb: 5, total_mb: 6 }));
    assert_eq!(decode("RAM -5/6MB").ram, None);
    assert_eq!(decode("RAM /6MB").ram, None);
    assert_eq!(decode("RAM 1/2MBMB").ram, Some(Ram { used_mb: 1, total_mb: 2 }));
    assert_eq!(decode("RAM 1/2M3B").ram, None);
    assert_eq!(decode("RAM 1/2/3MB").ram, None);
}

#[test]
fn engine_load_edges() {
    assert_eq!(decode("X_FREQ 255%").engines.len(), 1);
    assert_eq!(decode("X_FREQ 256%").engines.len(), 0);
    assert_eq!(decode("X_FREQ 1%2%").engines, vec![Engine { name: "X".to_string(), load: 12 }]);
    assert_eq!(decode("X_FREQ abc%").engines.len(), 0);
    // without any _FREQ in the line a percent token is no engine load
    assert_eq!(decode("GPU 5%").engines.len(), 0);
}

#[test]
fn engine_without_preceding_word_gets_empty_name() {
    let t = decode("_FREQ 5%");
    assert_eq!(t.engines, vec![Engine { name: String::new(), load: 5 }]);
}

#[test]
fn engine_label_inside_token() {
    let t = decode("a EMC_FREQ@204 3%");
    assert_eq!(t.engines, vec![Engine { name: "EMC".to_string(), load: 3 }]);
}

#[test]
fn thermal_edges() {
    let t = decode("AO@-4.5C PMIC@100C bad@xyzC GPU@C Tboard@1e2C x@infC");
    let names: Vec<&str> = t.thermals.iter().map(|h| h.name.as_str()).collect();
    assert_eq!(names, vec!["AO", "PMIC", "Tboard", "x"]);
    assert_eq!(temp(&t, 0), -4.5);
    assert_eq!(temp(&t, 1), 100.0);
    assert_eq!(temp(&t, 2), 100.0);
    assert!(temp(&t, 3).is_infinite());
    let t = decode("a@3C9C b@.5 c@5. d@. e@1e f@+2E-1");
    let names: Vec<&str> = t.thermals.iter().map(|h| h.name.as_str()).collect();
    assert_eq!(names, vec!["a", "b", "c", "f"]);
    assert_eq!(temp(&t, 0), 39.0);
}

#[test]
fn unicode_whitespace_separates_tokens() {
    let t = decode("RAM\u{3000}1/2MB\tSWAP\u{a0}3/4MB");
    assert_eq!(t.ram, Some(Ram { used_mb: 1, total_mb: 2 }));
    assert_eq!(t.swap, Some(Swap { used_mb: 3, total_mb: 4 }));
}

#[test]
fn default_is_empty() {
    assert!(Telemetry::default().is_empty());
    assert!(!decode("RAM 1/2MB").is_empty());
}

#[test]
fn awaited_cpu_list_wins_over_thermal_shape() {
    let t = decode("CPU GPU@40C CPU@39C");
    assert_eq!(t.cpu, vec![]);
    assert_eq!(t.thermals.len(), 1);
    assert_eq!(t.thermals[0].name, "CPU");
}

const SAMPLES: [&str; 40] = [
    "0", "7", "42", "+5", "-5", "+", "-", "", "00012", "255", "256", "4294967295", "4294967296",
    "1.5", ".5", "5.", ".", "1e5", "1E+5", "1e-5", "1e", "e5", "-.5e-3", "inf", "-INF", "Infinity",
    "+nan", "NaN", "infinit", "nana", "1.2.3", "1e5e5", "0x10", " 1", "1 ", "1_000", "١", "12a",
    "+-1", "9999999999999999999999",
];

#[test]
fn thermal_kept_exactly_when_text_reads_as_float() {
    for s in SAMPLES {
        if s.contains(char::is_whitespace) || s.contains('@') || s.contains('C') {
            continue;
        }
        let t = decode(&format!("T@{}C", s));
        assert_eq!(t.thermals.len() == 1, s.parse::<f32>().is_ok(), "text {:?}", s);
    }
}

#[test]
fn memory_kept_exactly_when_both_read_as_u32() {
    for a in SAMPLES {
        for b in ["1", "+2", "x"] {
            if a.contains(char::is_whitespace) || a.contains('/') || a.contains('@') {
                continue;
            }
            let t = decode(&format!("RAM {}/{}MB", a, b));
            let want = match (a.parse::<u32>(), b.parse::<u32>()) {
                (Ok(u), Ok(v)) => Some(Ram { used_mb: u, total_mb: v }),
                _ => None,
            };
            assert_eq!(t.ram, want, "pair {:?}/{:?}", a, b);
        }
    }
}

#[test]
fn engine_load_kept_exactly_when_it_reads_as_u8() {
    for s in SAMPLES {
        if s.contains(char::is_whitespace) || s.contains('%') || s.ends_with("_FREQ") {
            continue;
        }
        let t = decode(&format!("G_FREQ {}%", s));
        assert_eq!(t.engines.len() == 1, s.parse::<u8>().is_ok(), "load {:?}", s);
    }
}
