use torchrust::counts::DropCounts;
use torchrust::drop::PriceTableEntry;
use torchrust::process::{
    detect_map_enter, detect_map_exit, process_log_chunk, try_process_log_chunk, DropState,
    ProcessInput, ProcessOutput, MAP_ENTER_PATTERN, MAP_EXIT_PATTERN,
};

const BLOCK: &str = "+DropItems+1+Picked [true]\n\
+DropItems+1+item+SpecialInfo+BaseId [5001]\n\
+DropItems+1+item+SpecialInfo+Num [3]\n\
Display: end";

fn input(text: &str, prev: Option<DropState>) -> ProcessInput {
    ProcessInput {
        log_text: text.to_string(),
        price_table: vec![PriceTableEntry { id: "5001".to_string(), name: "Ember".to_string() }],
        tax_enabled: true,
        exclude_list: Vec::new(),
        previous_state: prev,
    }
}

#[test]
fn map_patterns_are_detected() {
    let enter = format!("x {} y", MAP_ENTER_PATTERN);
    assert!(detect_map_enter(&enter));
    assert!(!detect_map_enter("nothing here"));
    assert!(detect_map_exit(MAP_EXIT_PATTERN));
    assert!(!detect_map_exit("NextSceneName = World'/Game/Art/Maps"));
}

#[test]
fn chunk_counts_drops() {
    let o = process_log_chunk(input(BLOCK, None));
    assert!(!o.map_enter);
    assert!(!o.map_exit);
    assert_eq!(o.map_count, 0);
    assert_eq!(o.drop_list.get(&"5001".to_string()), 3);
    assert_eq!(o.drop_list_all.get(&"5001".to_string()), 3);
    assert_eq!(o.drops.len(), 1);
    assert!(o.drops[0].taxed);
}

#[test]
fn output_is_next_state() {
    let o = process_log_chunk(input(BLOCK, None));
    let state: DropState = DropState::from(o);
    let o2 = process_log_chunk(input(&format!("{}\n{}", BLOCK, BLOCK), Some(state)));
    assert_eq!(o2.drop_list.get(&"5001".to_string()), 9);
    assert_eq!(o2.drop_list_all.get(&"5001".to_string()), 9);
    assert_eq!(o2.drops.len(), 2);
}

#[test]
fn map_enter_resets_since_entry_tally() {
    let o = process_log_chunk(input(BLOCK, None));
    let state = DropState::from(o);
    let text = format!("{}\n{}", MAP_ENTER_PATTERN, BLOCK);
    let o2: ProcessOutput = process_log_chunk(input(&text, Some(state)));
    assert!(o2.map_enter);
    assert_eq!(o2.map_count, 1);
    assert_eq!(o2.drop_list.get(&"5001".to_string()), 3);
    assert_eq!(o2.drop_list_all.get(&"5001".to_string()), 6);
}

#[test]
fn overflow_is_refused() {
    let mut all = DropCounts::new();
    all.set("5001".to_string(), u32::MAX - 1);
    let prev = DropState { drop_list: DropCounts::new(), drop_list_all: all, map_count: 0 };
    assert!(try_process_log_chunk(input(BLOCK, Some(prev))).is_none());
    let prev2 = DropState { drop_list: DropCounts::new(), drop_list_all: DropCounts::new(), map_count: u32::MAX };
    assert!(try_process_log_chunk(input(MAP_ENTER_PATTERN, Some(prev2))).is_none());
}

#[test]
fn reversed_brackets_in_a_block_are_refused() {
    let text = "+DropItems+1+ ]x[\nDisplay:";
    assert!(try_process_log_chunk(input(text, None)).is_none());
    let outside = "+a ]x[\n+DropItems+1+\nDisplay:";
    assert!(try_process_log_chunk(input(outside, None)).is_some());
}

#[test]
fn empty_chunk_keeps_state() {
    let o = process_log_chunk(input("", None));
    assert_eq!(o.drop_list.len(), 0);
    assert_eq!(o.drops.len(), 0);
    assert_eq!(o.map_count, 0);
}

#[test]
fn quiet_chunk_keeps_state() {
    let o = process_log_chunk(input(BLOCK, None));
    let state = DropState::from(o);
    let o2 = process_log_chunk(input("+item+BaseId [5001]\nDisplay: nothing\nplain line", Some(state)));
    assert!(!o2.map_enter);
    assert_eq!(o2.map_count, 0);
    assert_eq!(o2.drop_list.get(&"5001".to_string()), 3);
    assert_eq!(o2.drop_list_all.get(&"5001".to_string()), 3);
    assert_eq!(o2.drops.len(), 0);
}
