use dat_cli::daily_temperature::{get_daily_temperature, DailyTemperatureMode};
use dat_cli::rotating_list::{
    rotating_list, rotating_list_right, ListNode, RotatingDirection,
};
use dat_cli::schedule::{get_optimal_schedule, Schedule, ScheduleItem};

#[test]
fn daily_temperature_stack_mode() {
    let temps = vec![33, 74, 75, 71, 69, 72, 76, 73];
    let result = get_daily_temperature(&temps, &"Stack".to_string()).unwrap();
    assert_eq!(result, vec![1, 1, 4, 2, 1, 1, 0, 0]);
}

#[test]
fn daily_temperature_reverse_mode() {
    let temps = vec![33, 74, 75, 71, 69, 72, 76, 73];
    let result = get_daily_temperature(&temps, &"Reverse".to_string()).unwrap();
    assert_eq!(result, vec![1, 1, 4, 2, 1, 1, 0, 0]);
}

#[test]
fn daily_temperature_modes_agree() {
    let temps = vec![5, 5, 5, 4, 6];
    let stack = get_daily_temperature(&temps, &"Stack".to_string()).unwrap();
    let reverse = get_daily_temperature(&temps, &"Reverse".to_string()).unwrap();
    assert_eq!(stack, reverse);
    assert_eq!(stack, vec![4, 3, 2, 1, 0]);
}

#[test]
fn daily_temperature_empty_and_single() {
    assert_eq!(
        get_daily_temperature(&vec![], &"Stack".to_string()).unwrap(),
        Vec::<usize>::new()
    );
    assert_eq!(
        get_daily_temperature(&vec![42], &"Reverse".to_string()).unwrap(),
        vec![0]
    );
}

#[test]
fn daily_temperature_mode_names() {
    assert!(matches!(
        DailyTemperatureMode::from_str("Stack"),
        DailyTemperatureMode::Stack
    ));
    assert!(matches!(
        DailyTemperatureMode::from_str("Reverse"),
        DailyTemperatureMode::Reverse
    ));
}

#[test]
fn list_round_trip() {
    let head = ListNode::from_vec(vec![1, 2, 3]);
    assert_eq!(ListNode::to_vec(head), vec![1, 2, 3]);
    assert_eq!(ListNode::to_vec(ListNode::from_vec(vec![])), vec![]);
}

#[test]
fn list_split_and_extend() {
    let mut front = match ListNode::from_vec(vec![1, 2, 3]) {
        Some(node) => *node,
        None => panic!("list should not be empty"),
    };
    let back = front.split_at(2).expect("a tail should come off");
    assert_eq!(ListNode::to_vec(Some(Box::new(back))), vec![3]);
    front.extend_from_list(Box::new(ListNode::new(9)));
    assert_eq!(ListNode::to_vec(Some(Box::new(front))), vec![1, 2, 9]);
}

#[test]
fn rotating_right_by_two() {
    let result = rotating_list_right(vec![1, 2, 3, 4, 5], 2).unwrap();
    assert_eq!(result, vec![4, 5, 1, 2, 3]);
}

#[test]
fn rotating_wraps_past_the_length() {
    assert_eq!(
        rotating_list_right(vec![1, 2, 3, 4, 5], 7).unwrap(),
        vec![4, 5, 1, 2, 3]
    );
    assert_eq!(
        rotating_list_right(vec![1, 2, 3], 3).unwrap(),
        vec![1, 2, 3]
    );
    assert_eq!(
        rotating_list_right(vec![1, 2, 3], 0).unwrap(),
        vec![1, 2, 3]
    );
}

#[test]
fn rotating_single_element() {
    assert_eq!(rotating_list_right(vec![8], 100).unwrap(), vec![8]);
}

#[test]
fn rotating_list_goes_right() {
    assert!(matches!(
        RotatingDirection::from_str("right"),
        RotatingDirection::Right
    ));
    let result = rotating_list(vec![10, 20, 30], 1, &"right".to_string()).unwrap();
    assert_eq!(result, vec![30, 10, 20]);
}

fn item(start: i32, end: i32, title: &str) -> ScheduleItem {
    ScheduleItem {
        start,
        end,
        title: title.to_string(),
    }
}

fn spans(schedule: &Schedule) -> Vec<(i32, i32)> {
    schedule.items.iter().map(|i| (i.start, i.end)).collect()
}

#[test]
fn schedule_picks_earliest_deadline_chain() {
    let input = Schedule {
        items: vec![item(1, 3, "a"), item(2, 4, "b"), item(3, 5, "c")],
    };
    let result = get_optimal_schedule(input);
    assert_eq!(spans(&result), vec![(1, 3), (3, 5)]);
}

#[test]
fn schedule_keeps_disjoint_items() {
    let input = Schedule {
        items: vec![item(4, 6, "late"), item(0, 2, "early"), item(2, 4, "mid")],
    };
    let result = get_optimal_schedule(input);
    assert_eq!(spans(&result), vec![(0, 2), (2, 4), (4, 6)]);
}

#[test]
fn schedule_never_duplicates_a_task() {
    let input = Schedule {
        items: vec![item(0, 2, "twin"), item(0, 2, "twin"), item(2, 4, "after")],
    };
    let result = get_optimal_schedule(input);
    assert_eq!(spans(&result), vec![(0, 2), (2, 4)]);
}

#[test]
fn schedule_of_nothing_is_empty() {
    let result = get_optimal_schedule(Schedule { items: vec![] });
    assert!(result.items.is_empty());
}

#[test]
fn schedule_with_full_overlap_keeps_one() {
    let input = Schedule {
        items: vec![item(0, 10, "long"), item(0, 3, "short"), item(1, 9, "mid")],
    };
    let result = get_optimal_schedule(input);
    assert_eq!(spans(&result), vec![(0, 3)]);
}
