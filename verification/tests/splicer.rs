use splicer::splice;
use splicer::splice_parallel;
use splicer::splice_stepped;

fn check_splicer(f: impl Fn(usize, &[u8]) -> Vec<Vec<u8>>) {
    let input = [0, 1, 2, 3, 4, 5, 6, 7];
    let expected = [
        vec![], // unused
        vec![vec![0, 1, 2, 3, 4, 5, 6, 7]],
        vec![vec![0, 2, 4, 6], vec![1, 3, 5, 7]],
        vec![vec![0, 3, 6], vec![1, 4, 7], vec![2, 5]],
        vec![vec![0, 4], vec![1, 5], vec![2, 6], vec![3, 7]],
        vec![vec![0, 5], vec![1, 6], vec![2, 7], vec![3], vec![4]],
        vec![vec![0, 6], vec![1, 7], vec![2], vec![3], vec![4], vec![5]],
    ];
    for (channels, expected) in expected.into_iter().enumerate().skip(1) {
        assert_eq!(f(channels, &input), expected, "f({channels}, ...)");
    }
}

#[test]
fn test_splice() {
    check_splicer(splice);
}

#[test]
fn test_splice_stepped() {
    check_splicer(splice_stepped);
}

#[test]
fn test_splice_parallel() {
    check_splicer(splice_parallel);
}

#[test]
fn variants_agree_on_irregular_inputs() {
    let inputs: [&[u8]; 4] = [&[], &[42], &[1, 2, 3, 4, 5, 6, 7, 8, 9, 10], &[255, 0, 255, 0, 7]];
    for input in inputs {
        for channels in 1..12 {
            let a = splice(channels, input);
            let b = splice_stepped(channels, input);
            let c = splice_parallel(channels, input);
            assert_eq!(a, b);
            assert_eq!(b, c);
        }
    }
}

#[test]
fn empty_input_yields_empty_channels() {
    for channels in 1..8 {
        for out in [
            splice(channels, &[]),
            splice_stepped(channels, &[]),
            splice_parallel(channels, &[]),
        ] {
            assert_eq!(out.len(), channels);
            for ch in out {
                assert!(ch.is_empty());
            }
        }
    }
}

#[test]
fn single_channel_is_identity() {
    let input = [9, 8, 7, 6, 5];
    for out in [
        splice(1, &input),
        splice_stepped(1, &input),
        splice_parallel(1, &input),
    ] {
        assert_eq!(out, vec![vec![9, 8, 7, 6, 5]]);
    }
}

#[test]
fn more_channels_than_elements() {
    let input = [1, 2, 3];
    for out in [
        splice(10, &input),
        splice_stepped(10, &input),
        splice_parallel(10, &input),
    ] {
        assert_eq!(out.len(), 10);
        assert_eq!(out[0], vec![1]);
        assert_eq!(out[1], vec![2]);
        assert_eq!(out[2], vec![3]);
        for ch in &out[3..] {
            assert!(ch.is_empty());
        }
    }
}

#[test]
fn channel_sizes_follow_the_size_law() {
    // 10 elements over 3 channels: 10 / 3 == 3 with remainder 1, so the
    // first channel gets 4 elements and the other two get 3.
    let input = [0, 1, 2, 3, 4, 5, 6, 7, 8, 9];
    for out in [
        splice(3, &input),
        splice_stepped(3, &input),
        splice_parallel(3, &input),
    ] {
        let lens: Vec<usize> = out.iter().map(|ch| ch.len()).collect();
        assert_eq!(lens, vec![4, 3, 3]);
        for (i, ch) in out.iter().enumerate() {
            let len: usize = input.len();
            let expected_len = if i < len { (len - i).div_ceil(3) } else { 0 };
            assert_eq!(ch.len(), expected_len);
        }
    }
}

#[test]
fn reinterleaving_channels_reconstructs_the_input() {
    let input = [3, 1, 4, 1, 5, 9, 2, 6, 5, 3, 5, 8, 9, 7];
    for channels in 1..17 {
        for out in [
            splice(channels, &input),
            splice_stepped(channels, &input),
            splice_parallel(channels, &input),
        ] {
            let mut rebuilt: Vec<u8> = Vec::new();
            for p in 0..input.len() {
                rebuilt.push(out[p % channels][p / channels]);
            }
            assert_eq!(rebuilt, input.to_vec());
            let total: usize = out.iter().map(|ch| ch.len()).sum();
            assert_eq!(total, input.len());
        }
    }
}
