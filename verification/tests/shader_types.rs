use redpiler::backend::gpu::shader_types::{
    ForwardLink, NeighborInfo, NodeType, State, TickPriority, TypeInfo,
};

#[test]
fn neighbor_info_packs_count_below_index() {
    let info = NeighborInfo { count: 7, index: 0x1234 };
    assert_eq!(info.as_packed(), 0x0012_3407);
}

#[test]
fn neighbor_info_keeps_low_bits_of_index() {
    let info = NeighborInfo { count: 255, index: 0x0100_0001 };
    assert_eq!(info.as_packed(), 0x0000_01FF);
}

#[test]
fn neighbor_info_word_gives_back_its_parts() {
    let info = NeighborInfo { count: 200, index: 0xFF_FFFF };
    let word = info.as_packed();
    assert_eq!(word % 0x100, 200);
    assert_eq!(word / 0x100, 0xFF_FFFF);
}

#[test]
fn forward_link_packs_distance_side_and_index() {
    let link = ForwardLink { distance: 3, is_side: true, node_index: 5 };
    assert_eq!(link.as_packed(), 3 | 1 << 4 | 5 << 5);
    let link = ForwardLink { distance: 14, is_side: false, node_index: 0x7FF_FFFF };
    assert_eq!(link.as_packed(), 0xFFFF_FFEE);
}

#[test]
fn forward_link_distance_runs_into_side_flag() {
    let link = ForwardLink { distance: 16, is_side: false, node_index: 0 };
    assert_eq!(link.as_packed(), 0x10);
    let link = ForwardLink { distance: 16, is_side: true, node_index: 0x800_0000 };
    assert_eq!(link.as_packed(), 0x10);
}

#[test]
fn forward_link_word_gives_back_its_parts() {
    let word = ForwardLink { distance: 9, is_side: true, node_index: 77 }.as_packed();
    assert_eq!(word % 16, 9);
    assert_eq!(word / 16 % 2, 1);
    assert_eq!(word / 32, 77);
}

#[test]
fn type_info_packs_all_settings() {
    let info = TypeInfo {
        ty: NodeType::Comparator,
        data: 1,
        facing_diode: true,
        far_input: 255,
    };
    assert_eq!(info.as_packed(), 2 | 1 << 8 | 1 << 16 | 255 << 17);
    let info = TypeInfo { ty: NodeType::NoteBlock, data: 0, facing_diode: false, far_input: 0 };
    assert_eq!(info.as_packed(), 10);
}

#[test]
fn type_info_word_gives_back_its_parts() {
    let info = TypeInfo { ty: NodeType::Repeater, data: 4, facing_diode: true, far_input: 9 };
    let word = info.as_packed();
    assert_eq!(word % 0x100, NodeType::Repeater.code());
    assert_eq!(word / 0x100 % 0x100, 4);
    assert_eq!(word / 0x1_0000 % 2, 1);
    assert_eq!(word / 0x2_0000, 9);
}

#[test]
fn node_types_are_numbered_in_order() {
    let types = [
        NodeType::Repeater,
        NodeType::Torch,
        NodeType::Comparator,
        NodeType::Lamp,
        NodeType::Button,
        NodeType::Lever,
        NodeType::PressurePlate,
        NodeType::Trapdoor,
        NodeType::Wire,
        NodeType::Constant,
        NodeType::NoteBlock,
    ];
    for (i, ty) in types.iter().enumerate() {
        assert_eq!(ty.code(), i as u32);
    }
}

#[test]
fn tick_priorities_are_numbered_from_the_highest() {
    assert_eq!(TickPriority::Highest.code(), 0);
    assert_eq!(TickPriority::Higher.code(), 1);
    assert_eq!(TickPriority::High.code(), 2);
    assert_eq!(TickPriority::Normal.code(), 3);
}

#[test]
fn state_packs_strength_and_flags() {
    let state = State { output_strength: 13, repeater_locked: true, changed: false };
    assert_eq!(state.as_packed(), 0x10D);
    let state = State { output_strength: 0, repeater_locked: false, changed: true };
    assert_eq!(state.as_packed(), 0x200);
}

#[test]
fn state_comes_back_from_its_word() {
    for strength in 0..=255u8 {
        for flags in 0..4u8 {
            let state = State {
                output_strength: strength,
                repeater_locked: flags & 1 != 0,
                changed: flags & 2 != 0,
            };
            assert_eq!(State::from_packed(state.as_packed()), state);
        }
    }
}

#[test]
fn state_ignores_the_bits_above() {
    let state = State::from_packed(0xFFFF_FC05);
    assert_eq!(state, State { output_strength: 5, repeater_locked: false, changed: false });
}
