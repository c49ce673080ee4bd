use torchrust::counts::DropCounts;
use torchrust::drop::{
    collect_drops, excluded, lookup_item_name, scan_drop_blocks, tally_drops, tax_applies,
    DropProcessor, PickedDrop, PriceTableEntry,
};
use torchrust::log_parser::convert_from_log_structure;

fn entry(id: &str, name: &str) -> PriceTableEntry {
    PriceTableEntry { id: id.to_string(), name: name.to_string() }
}

#[test]
fn scan_finds_closed_and_open_blocks() {
    let text = "noise\nA +DropItems+1+ start\nmid\nDisplay: end\nafter\nB +DropItems+1+ again\ntail";
    let blocks = scan_drop_blocks(text);
    assert_eq!(
        blocks,
        vec![
            "A +DropItems+1+ start\nmid\nDisplay: end".to_string(),
            "B +DropItems+1+ again\ntail".to_string(),
        ]
    );
}

#[test]
fn scan_start_line_does_not_close_its_block() {
    let text = "+DropItems+1+ Display: here\nnext\nDisplay: done\nx";
    let blocks = scan_drop_blocks(text);
    assert_eq!(blocks, vec!["+DropItems+1+ Display: here\nnext\nDisplay: done".to_string()]);
}

#[test]
fn scan_without_marker_gives_nothing() {
    assert!(scan_drop_blocks("a\nb\nDisplay: c").is_empty());
    assert!(scan_drop_blocks("").is_empty());
}

#[test]
fn scan_keeps_carriage_returns() {
    let blocks = scan_drop_blocks("+DropItems+1+\r\nDisplay:\r\n");
    assert_eq!(blocks, vec!["+DropItems+1+\r\nDisplay:\r".to_string()]);
}

const BLOCK: &str = "+DropItems+1+Picked [true]\n\
+DropItems+1+item+SpecialInfo+BaseId [5001]\n\
+DropItems+1+item+SpecialInfo+Num [3]\n\
+DropItems+2+item+BaseId [100300]\n\
+DropItems+2+item+Num [7]\n\
+DropItems+2+item+Picked [TRUE]\n\
+DropItems+3+item+BaseId [42]\n\
+DropItems+3+item+Num [1]\n\
Display: end";

#[test]
fn collect_picked_drops_in_key_order() {
    let t = convert_from_log_structure(BLOCK).unwrap();
    let table = vec![entry("5001", "Ember"), entry("100300", "Flame")];
    let ds = collect_drops(&t, &table, true, &Vec::new());
    let got: Vec<(String, u32, bool)> = ds.into_iter().map(|d| (d.base_id, d.num, d.taxed)).collect();
    assert_eq!(got, vec![("5001".to_string(), 3, true), ("100300".to_string(), 7, false)]);
}

#[test]
fn excluded_names_are_skipped() {
    let t = convert_from_log_structure(BLOCK).unwrap();
    let table = vec![entry("5001", "Ember")];
    let ds = collect_drops(&t, &table, false, &vec!["Ember".to_string()]);
    let got: Vec<(String, u32, bool)> = ds.into_iter().map(|d| (d.base_id, d.num, d.taxed)).collect();
    assert_eq!(got, vec![("100300".to_string(), 7, false)]);
}

#[test]
fn blank_names_are_skipped() {
    let t = convert_from_log_structure(BLOCK).unwrap();
    let table = vec![entry("5001", "  ")];
    let ds = collect_drops(&t, &table, false, &Vec::new());
    assert_eq!(ds.len(), 1);
    assert_eq!(ds[0].base_id, "100300");
}

#[test]
fn base_id_from_item_when_special_info_lacks_it() {
    let block = "+d+item+SpecialInfo+Other [1]\n+d+item+BaseId [-12]\n+d+item+Num [-4]\n+d+Picked [true]";
    let t = convert_from_log_structure(block).unwrap();
    let ds = collect_drops(&t, &Vec::new(), false, &Vec::new());
    assert_eq!(ds.len(), 1);
    assert_eq!(ds[0].base_id, "-12");
    assert_eq!(ds[0].num, 0);
}

#[test]
fn non_integer_base_id_is_no_drop() {
    let block = "+d+item+BaseId [1.5]\n+d+Picked [true]\n+e+item+BaseId [abc]\n+e+Picked [true]";
    let t = convert_from_log_structure(block).unwrap();
    assert!(collect_drops(&t, &Vec::new(), false, &Vec::new()).is_empty());
}

#[test]
fn large_counts_are_truncated_to_32_bits() {
    let block = "+d+item+BaseId [9]\n+d+item+Num [4294967301]\n+d+Picked [true]";
    let t = convert_from_log_structure(block).unwrap();
    let ds = collect_drops(&t, &Vec::new(), false, &Vec::new());
    assert_eq!(ds[0].num, 5);
}

#[test]
fn tax_exempts_item_100300() {
    assert!(tax_applies(true, &"5001".to_string()));
    assert!(!tax_applies(true, &"100300".to_string()));
    assert!(!tax_applies(false, &"5001".to_string()));
}

#[test]
fn name_lookup_falls_back_to_id() {
    let table = vec![entry("1", "One"), entry("1", "Uno")];
    assert_eq!(lookup_item_name(&table, &"1".to_string()), "One");
    assert_eq!(lookup_item_name(&table, &"2".to_string()), "2");
    assert!(excluded(&vec!["x".to_string(), "One".to_string()], &"One".to_string()));
    assert!(!excluded(&vec!["x".to_string()], &"One".to_string()));
}

#[test]
fn processor_adds_to_both_tallies() {
    let t = convert_from_log_structure(BLOCK).unwrap();
    let mut p = DropProcessor::new();
    let ds = p.process_drops(&t, &Vec::new(), false, &Vec::new());
    assert_eq!(ds.len(), 2);
    let ds2 = p.process_drops(&t, &Vec::new(), false, &Vec::new());
    assert_eq!(ds2.len(), 2);
    assert_eq!(p.drop_list.get(&"5001".to_string()), 6);
    assert_eq!(p.drop_list_all.get(&"100300".to_string()), 14);
    assert_eq!(p.drop_list.get(&"42".to_string()), 0);
    assert_eq!(p.drop_list.len(), 2);
}

#[test]
fn counts_set_add_and_overflow() {
    let mut c = DropCounts::new();
    let k = "7".to_string();
    assert_eq!(c.get(&k), 0);
    c.add(&k, 5);
    c.add(&k, 6);
    assert_eq!(c.get(&k), 11);
    c.set(k.clone(), u32::MAX - 1);
    assert!(c.try_add(&k, 1));
    assert_eq!(c.get(&k), u32::MAX);
    assert!(!c.try_add(&k, 1));
    assert_eq!(c.get(&k), u32::MAX);
    assert_eq!(c.len(), 1);
    assert_eq!(c.pairs_vec(), &vec![("7".to_string(), u32::MAX)]);
}

#[test]
fn tally_refuses_overflow() {
    let mut c = DropCounts::new();
    c.set("a".to_string(), u32::MAX);
    let ds = vec![PickedDrop { base_id: "a".to_string(), num: 1, taxed: false }];
    assert!(!tally_drops(&mut c, &ds));
    let mut c2 = DropCounts::new();
    let ds2 = vec![
        PickedDrop { base_id: "a".to_string(), num: 2, taxed: false },
        PickedDrop { base_id: "b".to_string(), num: 3, taxed: true },
        PickedDrop { base_id: "a".to_string(), num: 4, taxed: false },
    ];
    assert!(tally_drops(&mut c2, &ds2));
    assert_eq!(c2.get(&"a".to_string()), 6);
    assert_eq!(c2.get(&"b".to_string()), 3);
}
