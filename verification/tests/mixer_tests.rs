use sequencer::audio::mixer::{MixChunk, Mixer};

#[test]
fn output_shorter_than_the_scratch_buffer_is_one_chunk() {
    let mixer = Mixer::new(1024);
    assert_eq!(mixer.buffer_len(), 1024);
    assert_eq!(mixer.chunks(77, 256), vec![MixChunk { start: 0, len: 256, sample: 77 }]);
}

#[test]
fn silent_sources_mix_to_silence_of_the_requested_length() {
    // two sources that write zeros, summed chunk by chunk as the plan says
    let mixer = Mixer::new(1024);
    let mut output = vec![1.0f32; 300];
    let mut scratch = vec![0.5f32; mixer.buffer_len()];
    for chunk in mixer.chunks(0, output.len()) {
        let out = &mut output[chunk.start..chunk.start + chunk.len];
        out.fill(0.0);
        for _source in 0..2 {
            let buffer = &mut scratch[0..chunk.len];
            buffer.fill(0.0);
            for (a, b) in out.iter_mut().zip(buffer.iter()) {
                *a += *b;
            }
        }
    }
    assert_eq!(output.len(), 300);
    assert!(output.iter().all(|x| *x == 0.0));
}

#[test]
fn longer_output_goes_in_chunks() {
    let mixer = Mixer::new(100);
    assert_eq!(
        mixer.chunks(1000, 250),
        vec![
            MixChunk { start: 0, len: 100, sample: 1000 },
            MixChunk { start: 100, len: 100, sample: 1050 },
            MixChunk { start: 200, len: 50, sample: 1100 },
        ]
    );
    assert_eq!(
        mixer.chunks(0, 200),
        vec![MixChunk { start: 0, len: 100, sample: 0 }, MixChunk { start: 100, len: 100, sample: 50 }]
    );
}

#[test]
fn empty_output_has_no_chunk() {
    assert!(Mixer::new(8).chunks(5, 0).is_empty());
}
