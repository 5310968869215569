use cargo_llvm_lines::{count_lines, Aggregate};

fn counted(ir: &str) -> Aggregate {
    let mut agg = Aggregate::new();
    count_lines(&mut agg, ir.as_bytes());
    agg
}

#[test]
fn two_copies_of_one_function_merge() {
    let ir = "\
define internal void @\"_ZN3foo3bar17h0123456789abcdefE\"(ptr %x) {
start:
  %a = load i32, ptr %x
  %b = add i32 %a, 1
  ret void
}

define internal void @\"_ZN3foo3bar17h0123456789abcdefE\"(ptr %y) {
start:
  %a = load i32, ptr %y
  %b = add i32 %a, 2
  ret void
}
";
    let agg = counted(ir);
    assert_eq!(agg.len(), 1);
    assert_eq!(agg.name(0), "foo::bar");
    let rec = agg.get("foo::bar").unwrap();
    assert_eq!(rec.copies, 2);
    assert_eq!(rec.total_lines, 6);
    assert_eq!(agg.total_copies(), 2);
    assert_eq!(agg.total_lines(), 6);
}

#[test]
fn copies_with_different_hashes_merge() {
    let ir = "\
define void @_ZN3foo3bar17h0123456789abcdefE() {
  ret void
}
define void @_ZN3foo3bar17hfedcba9876543210E() {
  call void @x()
  ret void
}
define void @_ZN3foo3bar17h00000000000000aaE() {
  call void @x()
  call void @y()
  ret void
}
";
    let agg = counted(ir);
    let rec = agg.get("foo::bar").unwrap();
    assert_eq!(rec.copies, 3);
    assert_eq!(rec.total_lines, 6);
    assert_eq!(agg.len(), 1);
}

#[test]
fn symbol_without_terminator_is_not_demangled() {
    let ir = "define void @_ZN3foo3bar17h0123456789abcdef() {\n  ret void\n}\n";
    let agg = counted(ir);
    assert_eq!(agg.name(0), "_ZN3foo3bar17h0123456789abcdef");
}

#[test]
fn only_two_space_lines_count() {
    let ir = "\
define i32 @f(i32 %x) {
start:
  %a = add i32 %x, 1
   %deeper = add i32 %x, 2
    %deepest = add i32 %x, 3
; comment
  ret i32 %a
}
";
    let agg = counted(ir);
    assert_eq!(agg.get("f").unwrap().total_lines, 2);
}

#[test]
fn carriage_returns_are_line_breaks() {
    let ir = "define void @g() {\r\n  ret void\r\n}\r\n";
    let agg = counted(ir);
    let rec = agg.get("g").unwrap();
    assert_eq!(rec.copies, 1);
    assert_eq!(rec.total_lines, 1);
}

#[test]
fn close_brace_must_stand_alone() {
    let ir = "define void @h() {\n  ret void\n} \n  br label %x\n}\n";
    let agg = counted(ir);
    assert_eq!(agg.get("h").unwrap().total_lines, 2);
}

#[test]
fn definition_without_symbol_is_dropped() {
    let ir = "define void {\n  ret void\n}\ndefine void @k() {\n  ret void\n}\n";
    let agg = counted(ir);
    assert_eq!(agg.len(), 1);
    assert!(agg.get("k").is_some());
    assert_eq!(agg.total_lines(), 1);
}

#[test]
fn counter_resets_at_each_definition() {
    let ir = "  stray\n  lines\ndefine void @m() {\n  ret void\n}\n";
    let agg = counted(ir);
    assert_eq!(agg.get("m").unwrap().total_lines, 1);
}

#[test]
fn unclosed_body_is_not_recorded() {
    let ir = "define void @n() {\n  ret void\n";
    let agg = counted(ir);
    assert_eq!(agg.len(), 0);
    assert_eq!(agg.total_copies(), 0);
}

#[test]
fn empty_input_gives_empty_aggregate() {
    let agg = counted("");
    assert_eq!(agg.len(), 0);
    assert_eq!(agg.total_lines(), 0);
}

#[test]
fn scans_accumulate() {
    let mut agg = Aggregate::new();
    count_lines(&mut agg, b"define void @p() {\n  ret void\n}\n");
    count_lines(&mut agg, b"define void @p() {\n  a\n  ret void\n}\ndefine void @q() {\n}\n");
    let p = agg.get("p").unwrap();
    assert_eq!(p.copies, 2);
    assert_eq!(p.total_lines, 3);
    let q = agg.get("q").unwrap();
    assert_eq!(q.copies, 1);
    assert_eq!(q.total_lines, 0);
    assert_eq!(agg.len(), 2);
    assert_eq!(agg.name(0), "p");
    assert_eq!(agg.name(1), "q");
}

#[test]
fn record_lines_accumulates() {
    let mut rec = cargo_llvm_lines::Instantiations::default();
    rec.record_lines(4);
    rec.record_lines(5);
    assert_eq!(rec.copies, 2);
    assert_eq!(rec.total_lines, 9);
}
