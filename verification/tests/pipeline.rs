use sortvis::channel::BoundedChannel;
use sortvis::events::{initial_updates, terminal_updates, translate, ColorClass, ListUpdate};
use sortvis::graphics::{ColorScheme, ListVisualization};
use sortvis::list::Operation;
use sortvis::renderer::Renderer;

fn upd(index: usize, value: u32, color: ColorClass) -> ListUpdate {
    ListUpdate { index, value, color }
}

#[test]
fn translator_swap_shows_post_swap_values() {
    // index 2 held 10 and index 5 held 3 before the swap; the batch shows
    // the values read after the swap completed.
    let values: Vec<u32> = vec![0, 0, 3, 0, 0, 10];
    let batch = translate(Operation::Swap(2, 5), &values);
    assert_eq!(
        batch,
        vec![upd(2, 3, ColorClass::Write), upd(5, 10, ColorClass::Write)]
    );
}

#[test]
fn translator_maps_each_operation() {
    let values: Vec<u32> = vec![5, 7, 9];
    assert_eq!(
        translate(Operation::Get(1), &values),
        vec![upd(1, 7, ColorClass::Read)]
    );
    assert_eq!(
        translate(Operation::Write(0, 5), &values),
        vec![upd(0, 5, ColorClass::Write)]
    );
    assert_eq!(
        translate(Operation::Compare(0, 2), &values),
        vec![upd(0, 5, ColorClass::Read), upd(2, 9, ColorClass::Read)]
    );
}

#[test]
fn initial_batch_is_idle() {
    let values: Vec<u32> = vec![3, 1, 2];
    assert_eq!(
        initial_updates(&values),
        vec![
            upd(0, 3, ColorClass::Idle),
            upd(1, 1, ColorClass::Idle),
            upd(2, 2, ColorClass::Idle)
        ]
    );
}

#[test]
fn terminal_pass_flags_last_pair() {
    let values: Vec<u32> = vec![1, 2, 2, 5, 3];
    assert_eq!(
        terminal_updates(&values),
        vec![
            upd(0, 1, ColorClass::DoneOk),
            upd(1, 2, ColorClass::DoneOk),
            upd(2, 2, ColorClass::DoneOk),
            upd(3, 5, ColorClass::DoneOk),
            upd(4, 3, ColorClass::DoneError)
        ]
    );
}

#[test]
fn terminal_pass_on_sorted_is_all_ok() {
    let values: Vec<u32> = vec![1, 1, 2, 9];
    let batch = terminal_updates(&values);
    assert!(batch.iter().all(|u| u.color == ColorClass::DoneOk));
    assert_eq!(batch.len(), 4);
}

#[test]
fn channel_backpressure_capacity_8() {
    let mut channel = BoundedChannel::new(8);
    assert_eq!(channel.capacity(), 8);
    for i in 0..8usize {
        let refused = channel.try_send(vec![upd(i, i as u32, ColorClass::Read)]);
        assert!(refused.is_none());
    }
    assert_eq!(channel.len(), 8);
    // the ninth batch is refused and handed back, never dropped
    let refused = channel.try_send(vec![upd(8, 8, ColorClass::Read)]);
    assert_eq!(refused, Some(vec![upd(8, 8, ColorClass::Read)]));
    assert_eq!(channel.len(), 8);
    // after the consumer drains one batch the producer can send again
    let first = channel.try_receive();
    assert_eq!(first, Some(vec![upd(0, 0, ColorClass::Read)]));
    let refused = channel.try_send(vec![upd(8, 8, ColorClass::Read)]);
    assert!(refused.is_none());
    // batches arrive in send order
    for i in 1..9usize {
        let got = channel.try_receive();
        assert_eq!(got, Some(vec![upd(i, i as u32, ColorClass::Read)]));
    }
    assert_eq!(channel.try_receive(), None);
}

#[test]
fn layout_positions_and_scale() {
    let data: Vec<u32> = vec![1, 2, 4, 3];
    let vis = ListVisualization::autogenerate(&data, 30, 10, 1);
    assert_eq!(vis.width, 30);
    assert_eq!(vis.height, 10);
    assert_eq!(vis.margin, 1);
    assert_eq!(vis.max_value, 4);
    assert_eq!(vis.element_positions, vec![(1, 7), (8, 14), (15, 21), (22, 28)]);
}

#[test]
fn draw_paints_bar_and_background() {
    let vis = ListVisualization {
        width: 3,
        height: 4,
        margin: 1,
        element_positions: vec![(1, 2)],
        max_value: 2,
    };
    let colors = ColorScheme::standard();
    let mut framebuffer: Vec<u32> = vec![7; 12];
    vis.draw(&vec![upd(0, 2, ColorClass::Read)], &colors, &mut framebuffer);
    // the bar fills rows 1 and 2 of column 1; row 0 and the bottom margin
    // row show the background; other columns are untouched
    assert_eq!(framebuffer[0 * 3 + 1], colors.background);
    assert_eq!(framebuffer[1 * 3 + 1], colors.read);
    assert_eq!(framebuffer[2 * 3 + 1], colors.read);
    assert_eq!(framebuffer[3 * 3 + 1], colors.background);
    assert_eq!(framebuffer[0 * 3 + 0], 7);
    assert_eq!(framebuffer[2 * 3 + 2], 7);
}

#[test]
fn revert_policy_repaints_untouched_index() {
    let data: Vec<u32> = vec![4, 4, 4, 4, 4, 4, 4, 4];
    let vis = ListVisualization::autogenerate(&data, 100, 20, 2);
    let colors = ColorScheme::standard();
    let mut renderer = Renderer::new(vis, colors);
    // first batch: a transient read highlight on bar 3
    renderer.update(vec![upd(3, 2, ColorClass::Read)]);
    assert_eq!(renderer.revert_changes, vec![upd(3, 2, ColorClass::Idle)]);
    assert_eq!(renderer.framebuffer[12 * 100 + 40], colors.read);
    // second batch touches only bar 7: bar 3 is repainted idle
    renderer.update(vec![upd(7, 4, ColorClass::Write)]);
    assert_eq!(renderer.revert_changes, vec![upd(7, 4, ColorClass::Idle)]);
    assert_eq!(renderer.framebuffer[12 * 100 + 40], colors.fill);
    assert_eq!(renderer.framebuffer[5 * 100 + 90], colors.write);
}

#[test]
fn revert_entry_dropped_when_index_retouched() {
    let data: Vec<u32> = vec![4, 4, 4, 4];
    let vis = ListVisualization::autogenerate(&data, 50, 20, 2);
    let colors = ColorScheme::standard();
    let mut renderer = Renderer::new(vis, colors);
    renderer.update(vec![upd(1, 2, ColorClass::Write)]);
    assert_eq!(renderer.revert_changes, vec![upd(1, 2, ColorClass::Idle)]);
    // the same bar is touched again: no stale idle repaint hides the new
    // highlight
    renderer.update(vec![upd(1, 3, ColorClass::Read)]);
    assert_eq!(renderer.revert_changes, vec![upd(1, 3, ColorClass::Idle)]);
    // terminal colors are not transient and leave no revert entry
    renderer.update(vec![upd(1, 3, ColorClass::DoneOk)]);
    assert_eq!(renderer.revert_changes, Vec::<ListUpdate>::new());
}
