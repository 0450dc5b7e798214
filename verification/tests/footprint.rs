use grove::footprint::{footprint, human_size, FileBlocks};

#[test]
fn sizes_read_the_way_du_prints_them() {
    let cases = [
        (0, "0B"),
        (512, "512B"),
        (1536, "1.5K"),
        (350 << 20, "350M"),
        (1_181_116_006, "1.1G"),
    ];
    for (bytes, want) in cases {
        assert_eq!(human_size(bytes), want, "{bytes}");
    }
}

#[test]
fn sizes_round_as_a_double_is_formatted() {
    // Each case checked against formatting the `f64` itself.
    for bytes in [
        1023u64,
        1024,
        1025,
        1280,
        1331,
        10 * 1024 - 1,
        10 * 1024,
        10 * 1024 + 512,
        11 * 1024 + 512,
        (9 << 20) + (1 << 20) * 19 / 20,
        u64::MAX,
        (1 << 53) + 1,
        (1 << 60) + 12345,
        5 << 40,
    ] {
        assert_eq!(human_size(bytes), reference(bytes), "{bytes}");
    }
}

fn reference(bytes: u64) -> String {
    const UNITS: [&str; 5] = ["B", "K", "M", "G", "T"];
    let mut value = bytes as f64;
    let mut unit = 0;
    while value >= 1024.0 && unit < UNITS.len() - 1 {
        value /= 1024.0;
        unit += 1;
    }
    match unit {
        0 => format!("{bytes}B"),
        _ if value < 10.0 => format!("{value:.1}{}", UNITS[unit]),
        _ => format!("{value:.0}{}", UNITS[unit]),
    }
}

fn file(dev: u64, ino: u64, nlink: u64, blocks: u64) -> FileBlocks {
    FileBlocks { dev, ino, nlink, blocks }
}

#[test]
fn blocks_are_charged_and_hardlinks_once() {
    assert_eq!(footprint(&vec![]), 0);
    // A thirty-byte file still occupies a block.
    assert_eq!(footprint(&vec![file(1, 10, 1, 8)]), 4096);
    let files = vec![
        file(1, 10, 3, 8),
        file(1, 11, 1, 2),
        file(1, 10, 3, 8), // the same file under another name
        file(2, 10, 2, 4), // same inode number, another device
        file(1, 12, 1, 1),
        file(1, 12, 1, 1), // one name each: counted as the walk met them
    ];
    assert_eq!(footprint(&files), (8 + 2 + 4 + 1 + 1) * 512);
}
