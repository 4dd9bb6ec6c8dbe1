use vsfold::{ErrorKind, Folder, START_LINE};

fn report(data: &[&str]) -> Vec<String> {
    let mut lines = vec![START_LINE.to_string()];
    for l in data {
        lines.push(l.to_string());
    }
    lines
}

fn sorted(mut v: Vec<(String, usize)>) -> Vec<(String, usize)> {
    v.sort();
    v
}

fn pairs(v: &[(&str, usize)]) -> Vec<(String, usize)> {
    sorted(v.iter().map(|(p, n)| (p.to_string(), *n)).collect())
}

#[test]
fn end_to_end_scenario() {
    let lines = report(&[
        "1,\"Main\",1,100.00,0.00,10.00,0.00,\"app.exe\",",
        "2,\"A\",500,90.00,10.00,9.00,1.00,\"app.exe\",",
        "3,\"B\",300,50.00,50.00,5.00,5.00,\"app.exe\",",
        "3,\"C\",200,40.00,40.00,4.00,4.00,\"app.exe\",",
        "2,\"D\",100,10.00,10.00,1.00,1.00,\"app.exe\",",
    ]);
    let mut folder = Folder::new();
    let out = folder.collapse_lines(&lines).unwrap();
    assert_eq!(
        out,
        vec![
            ("Main;A;B".to_string(), 300),
            ("Main;A;C".to_string(), 200),
            ("Main;A".to_string(), 300),
            ("Main;D".to_string(), 100),
        ]
    );
}

#[test]
fn grouped_counts_in_lines() {
    let lines = report(&[
        "1,\"Main\",\"2,893,824\",54.37,4.21,0.04,0.00,\"Raytracer.exe\",",
        "2,\"Trace\",\"1,000\",54.37,4.21,0.04,0.00,\"Raytracer.exe\",",
    ]);
    let mut folder = Folder::new();
    let out = folder.collapse_lines(&lines).unwrap();
    assert_eq!(out, vec![("Main;Trace".to_string(), 1000)]);
}

#[test]
fn empty_input_gives_nothing() {
    let mut folder = Folder::new();
    assert_eq!(folder.collapse_lines(&Vec::new()).unwrap(), Vec::new());
}

#[test]
fn header_only_gives_nothing() {
    let mut folder = Folder::new();
    assert_eq!(folder.collapse_lines(&report(&[])).unwrap(), Vec::new());
}

#[test]
fn wrong_header_is_refused() {
    let lines = vec!["Function,Calls".to_string(), "1,\"Main\",1,0,0,0,0,\"a\",".to_string()];
    let mut folder = Folder::new();
    let e = folder.collapse_lines(&lines).unwrap_err();
    assert_eq!(e.kind, ErrorKind::UnexpectedHeader);
    assert_eq!(e.line, "Function,Calls");
}

#[test]
fn blank_lines_and_trailing_white_space_are_passed_over() {
    let lines = report(&[
        "1,\"Main\",5,0,0,0,0,\"a\",\r\n",
        "",
        "   \t",
        "2,\"A\",3,0,0,0,0,\"a\",   ",
    ]);
    let mut folder = Folder::new();
    let out = folder.collapse_lines(&lines).unwrap();
    assert_eq!(out, vec![("Main;A".to_string(), 3)]);
}

#[test]
fn bad_function_name_is_refused() {
    let lines = report(&["1,Main,5,0,0,0,0,\"a\","]);
    let mut folder = Folder::new();
    let e = folder.collapse_lines(&lines).unwrap_err();
    assert_eq!(e.kind, ErrorKind::MalformedFunctionName);
    assert_eq!(e.line, "1,Main,5,0,0,0,0,\"a\",");
    let lines = report(&["1,\"Main,5,0,0,0,0,a,"]);
    let e = folder.collapse_lines(&lines).unwrap_err();
    assert_eq!(e.kind, ErrorKind::MalformedFunctionName);
}

#[test]
fn bad_count_is_refused() {
    let lines = report(&["1,\"Main\",5.5,0,0,0,0,\"a\","]);
    let mut folder = Folder::new();
    let e = folder.collapse_lines(&lines).unwrap_err();
    assert_eq!(e.kind, ErrorKind::MalformedNumber);
    assert_eq!(e.line, "1,\"Main\",5.5,0,0,0,0,\"a\",");
}

#[test]
fn depth_jump_is_refused() {
    let lines = report(&["1,\"Main\",5,0,0,0,0,\"a\",", "3,\"A\",3,0,0,0,0,\"a\","]);
    let mut folder = Folder::new();
    let e = folder.collapse_lines(&lines).unwrap_err();
    assert_eq!(e.kind, ErrorKind::TreeStructureViolation);
    assert_eq!(e.line, "3,\"A\",3,0,0,0,0,\"a\",");
}

#[test]
fn depth_jump_leaves_state_unchanged() {
    let mut folder = Folder::new();
    let mut occ = Vec::new();
    folder.on_line("1,\"Main\",5,0,0,0,0,\"a\",", &mut occ).unwrap();
    let e = folder.on_line("3,\"A\",3,0,0,0,0,\"a\",", &mut occ).unwrap_err();
    assert_eq!(e.kind, ErrorKind::TreeStructureViolation);
    assert!(occ.is_empty());
    folder.write_stack(&mut occ);
    assert_eq!(occ, vec![("Main".to_string(), 5)]);
}

#[test]
fn observe_refuses_a_jump() {
    let mut folder = Folder::new();
    let mut occ = Vec::new();
    assert_eq!(folder.observe(2, "A".to_string(), 1, &mut occ), Err(ErrorKind::TreeStructureViolation));
    assert_eq!(folder.observe(1, "A".to_string(), 1, &mut occ), Ok(()));
}

#[test]
fn zero_counts_are_not_emitted() {
    let lines = report(&[
        "1,\"Main\",0,0,0,0,0,\"a\",",
        "2,\"Idle\",0,0,0,0,0,\"a\",",
        "2,\"Work\",4,0,0,0,0,\"a\",",
        "1,\"Other\",0,0,0,0,0,\"a\",",
    ]);
    let mut folder = Folder::new();
    let out = folder.collapse_lines(&lines).unwrap();
    assert_eq!(out, vec![("Main;Work".to_string(), 4)]);
    assert!(out.iter().all(|(_, n)| *n > 0));
}

#[test]
fn equal_counts_are_not_emitted_twice() {
    let lines = report(&[
        "1,\"Main\",7,0,0,0,0,\"a\",",
        "2,\"A\",7,0,0,0,0,\"a\",",
        "1,\"Next\",2,0,0,0,0,\"a\",",
    ]);
    let mut folder = Folder::new();
    let out = folder.collapse_lines(&lines).unwrap();
    assert_eq!(out, vec![("Main;A".to_string(), 7), ("Next".to_string(), 2)]);
}

#[test]
fn root_and_single_child_conserve_the_root_count() {
    let lines = report(&[
        "1,\"Root\",10,0,0,0,0,\"a\",",
        "2,\"Child\",4,0,0,0,0,\"a\",",
        "1,\"Next\",0,0,0,0,0,\"a\",",
    ]);
    let mut folder = Folder::new();
    let out = folder.collapse_lines(&lines).unwrap();
    assert_eq!(out, vec![("Root;Child".to_string(), 4), ("Root".to_string(), 6)]);
    let total: usize = out.iter().map(|(_, n)| *n).sum();
    assert_eq!(total, 10);
}

#[test]
fn child_above_parent_count_leaves_parent_whole() {
    let lines = report(&[
        "1,\"Root\",2,0,0,0,0,\"a\",",
        "2,\"Child\",5,0,0,0,0,\"a\",",
        "1,\"Next\",0,0,0,0,0,\"a\",",
    ]);
    let mut folder = Folder::new();
    let out = folder.collapse_lines(&lines).unwrap();
    assert_eq!(out, vec![("Root;Child".to_string(), 5), ("Root".to_string(), 2)]);
}

#[test]
fn depth_follows_the_last_line() {
    let mut folder = Folder::new();
    let mut occ = Vec::new();
    folder.on_line("1,\"Main\",9,0,0,0,0,\"a\",", &mut occ).unwrap();
    folder.on_line("2,\"A\",5,0,0,0,0,\"a\",", &mut occ).unwrap();
    folder.on_line("3,\"B\",2,0,0,0,0,\"a\",", &mut occ).unwrap();
    assert!(occ.is_empty());
    folder.on_line("3,\"C\",1,0,0,0,0,\"a\",", &mut occ).unwrap();
    assert_eq!(occ, vec![("Main;A;B".to_string(), 2)]);
    folder.on_line("2,\"D\",1,0,0,0,0,\"a\",", &mut occ).unwrap();
    folder.write_stack(&mut occ);
    assert_eq!(
        sorted(occ),
        pairs(&[("Main;A;B", 2), ("Main;A;C", 1), ("Main;A", 4), ("Main;D", 1)])
    );
}

#[test]
fn reset_then_replay_matches_a_fresh_folder() {
    let lines = report(&[
        "1,\"Main\",1,100.00,0.00,10.00,0.00,\"app.exe\",",
        "2,\"A\",500,90.00,10.00,9.00,1.00,\"app.exe\",",
        "3,\"B\",300,50.00,50.00,5.00,5.00,\"app.exe\",",
    ]);
    let mut used = Folder::new();
    let mut occ = Vec::new();
    used.on_line("1,\"Stale\",3,0,0,0,0,\"a\",", &mut occ).unwrap();
    used.on_line("2,\"Frame\",3,0,0,0,0,\"a\",", &mut occ).unwrap();
    used.reset();
    let mut fresh = Folder::default();
    assert_eq!(used.collapse_lines(&lines).unwrap(), fresh.collapse_lines(&lines).unwrap());
    let mut a = Vec::new();
    let mut b = Vec::new();
    for l in &lines[1..] {
        used.on_line(l, &mut a).unwrap();
        fresh.on_line(l, &mut b).unwrap();
    }
    assert_eq!(a, b);
}

#[test]
fn a_failed_run_does_not_spoil_the_next() {
    let mut folder = Folder::new();
    let bad = report(&["1,\"Main\",5,0,0,0,0,\"a\",", "2,\"A\",x,0,0,0,0,\"a\","]);
    assert!(folder.collapse_lines(&bad).is_err());
    let good = report(&["1,\"Solo\",5,0,0,0,0,\"a\","]);
    assert_eq!(folder.collapse_lines(&good).unwrap(), vec![("Solo".to_string(), 5)]);
}

#[test]
fn unicode_function_names_are_kept() {
    let lines = report(&[
        "1,\"Größe::berechnen\",3,0,0,0,0,\"a\",",
        "2,\"列表<T>.Add(T)\",\"1,234\",0,0,0,0,\"a\",",
    ]);
    let mut folder = Folder::new();
    let out = folder.collapse_lines(&lines).unwrap();
    assert_eq!(out, vec![("Größe::berechnen;列表<T>.Add(T)".to_string(), 1234)]);
}
