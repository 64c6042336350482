use std::collections::HashSet;

use scan_code_sync::command_pool::{slot_counts, CommandHolder, CommandPool};

type Pool = CommandPool<u32, u8, u16>;

#[test]
fn first_request_gets_nothing_but_a_slot() {
    let mut p: Pool = CommandPool::new();
    assert_eq!(p.get_exif_command(1), None);
    assert_eq!(p.exiftool.len(), 1);
    assert_eq!(p.exiftool[0].task_id, 1);
    assert!(p.exiftool[0].cmd.is_none());
}

#[test]
fn returned_command_is_reused_by_its_task() {
    let mut p: Pool = CommandPool::new();
    assert_eq!(p.get_exif_command(1), None);
    p.return_exif_command(1, 42);
    assert_eq!(p.exiftool.len(), 1);
    assert_eq!(p.get_exif_command(2), None);
    assert_eq!(p.get_exif_command(1), Some(42));
    assert_eq!(p.get_exif_command(1), None);
}

#[test]
fn take_and_return_leaves_pool_unchanged() {
    let mut p: Pool = CommandPool::new();
    p.return_exif_command(5, 1);
    p.return_exif_command(5, 2);
    let before: Vec<(Option<u32>, u64)> = p.exiftool.iter().map(|h| (h.cmd, h.task_id)).collect();
    let c = p.get_exif_command(5).unwrap();
    assert_eq!(c, 1);
    p.return_exif_command(5, c);
    let after: Vec<(Option<u32>, u64)> = p.exiftool.iter().map(|h| (h.cmd, h.task_id)).collect();
    assert_eq!(before, after);
}

#[test]
fn pruning_drops_dead_tasks_only() {
    let mut p: Pool = CommandPool::new();
    p.return_exif_command(1, 10);
    p.return_exif_command(2, 20);
    p.return_exif_command(1, 11);
    let live: HashSet<u64> = [1].into_iter().collect();
    p.prune_commands(&live);
    assert_eq!(p.exiftool.iter().map(|h| h.task_id).collect::<Vec<_>>(), vec![1, 1]);
    assert_eq!(p.get_exif_command(1), Some(10));
    assert_eq!(p.get_exif_command(2), None);
}

#[test]
fn other_tools_are_not_pooled() {
    let mut p: Pool = CommandPool::new();
    p.return_magick_command(1, 3);
    p.return_ffmpeg_command(1, 4);
    assert_eq!(p.get_magick_command(1), None);
    assert_eq!(p.get_ffmpeg_command(1), None);
    assert!(p.magick.is_empty() && p.ffmpeg.is_empty());
}

#[test]
fn idle_and_busy_per_task() {
    let slots = vec![
        CommandHolder { cmd: Some(1u32), task_id: 7 },
        CommandHolder { cmd: None, task_id: 3 },
        CommandHolder { cmd: None, task_id: 7 },
        CommandHolder { cmd: Some(2u32), task_id: 7 },
    ];
    assert_eq!(slot_counts(&slots), vec![(7, 2, 1), (3, 0, 1)]);
    assert!(slot_counts::<u32>(&vec![]).is_empty());
}
