use ragent::asset::Asset;
use ragent::audio_buffer::{write_data, AudioBuffer};
use ragent::memory::{get_supported_memory_backends, memory_backend, NoMemory, RedisMemory};

#[test]
fn playback_fills_whole_frames_then_silence() {
    let mut b: AudioBuffer<i16> = AudioBuffer::new(2);
    b.write_data(vec![1, 2, 3, 4, 5]);
    let mut out = [9i16; 7];
    b.fill_output(&mut out, 0);
    assert_eq!(out, [1, 2, 3, 4, 0, 0, 9]);
    let mut out = [9i16; 2];
    b.fill_output(&mut out, 0);
    assert_eq!(out, [0, 0]);
    b.write_data(vec![6]);
    let mut out = [9i16; 2];
    b.fill_output(&mut out, 0);
    assert_eq!(out, [5, 6]);
}

#[test]
fn mono_data_is_copied_to_every_channel() {
    let mut out = [9i16; 6];
    write_data(&mut out, 2, vec![1, 2], 0);
    assert_eq!(out, [1, 1, 0, 0, 0, 0]);
    let mut out = [9i16; 4];
    write_data(&mut out, 2, vec![1, 2, 3, 4, 5, 6], 0);
    assert_eq!(out, [1, 1, 2, 2]);
}

#[test]
fn memory_backends_are_listed_in_order() {
    assert_eq!(get_supported_memory_backends(), vec!["local", "redis", "pinecone", "no_memory"]);
    let _ = NoMemory::new();
    let _ = RedisMemory::new();
    assert_ne!(memory_backend::local, memory_backend::none);
}

#[test]
fn assets_start_without_metadata() {
    let a = Asset::new(vec![1, 2, 3]);
    assert_eq!(a.bytes, vec![1, 2, 3]);
    assert!(a.metadata.is_empty());
}
