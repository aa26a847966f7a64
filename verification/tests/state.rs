use divans::codec::interface::AllocatedMemoryPrefix;
use divans::codec::interface::CrossCommandState;
use divans::codec::interface::EncoderOrDecoderSpecialization;
use divans::codec::interface::NUM_BLOCK_TYPES;
use divans::probability::Speed;

struct Decoding {
    scratch: [u8; 4],
    offset: usize,
}

impl EncoderOrDecoderSpecialization for Decoding {
    fn alloc_literal_buffer(&mut self, len: usize) -> AllocatedMemoryPrefix {
        AllocatedMemoryPrefix::new(vec![0u8; len], len)
    }
    fn get_recoder_output<'a>(&'a mut self, _passed_in_output_bytes: &'a mut [u8]) -> &'a mut [u8] {
        &mut self.scratch[..]
    }
    fn get_recoder_output_offset<'a>(&self, _passed_in_output_bytes: &'a mut usize, backing: &'a mut usize) -> &'a mut usize {
        *backing = self.offset;
        backing
    }
    fn does_caller_want_original_file_bytes(&self) -> bool {
        true
    }
}

#[test]
fn cross_command_state_holds_given_cells() {
    let spc = Decoding { scratch: [0; 4], offset: 2 };
    let mut state = CrossCommandState::new(
        7u32,
        spc,
        vec![0u8; 1 << 10],
        vec![0u8; 64 * NUM_BLOCK_TYPES],
        vec![0u8; 4 * NUM_BLOCK_TYPES],
        3,
        Speed::SLOW,
    );
    assert_eq!(state.coder, 7);
    assert_eq!(state.ring_buffer.len(), 1024);
    assert!(state.ring_buffer.iter().all(|&b| b == 0));
    assert_eq!(state.bk.literal_context_map.len(), 64 * NUM_BLOCK_TYPES);
    assert_eq!(state.bk.distance_context_map.len(), 4 * NUM_BLOCK_TYPES);
    assert_eq!(state.bk.desired_context_mixing, 3);
    assert_eq!(state.bk.desired_literal_adaptation, Speed::SLOW);
    assert_eq!(state.bk.literal_adaptation, Speed::MUD);
    assert!(state.specialization.does_caller_want_original_file_bytes());
    let buffer = state.specialization.alloc_literal_buffer(5);
    assert_eq!(buffer.slice().len(), 5);
    let mut passed = 0usize;
    let mut backing = 0usize;
    assert_eq!(*state.specialization.get_recoder_output_offset(&mut passed, &mut backing), 2);
    let mut out = [0u8; 8];
    assert_eq!(state.specialization.get_recoder_output(&mut out).len(), 4);
}
