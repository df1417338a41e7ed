use ll::level::Level;

#[test]
fn ordering() {
    let mut levels = vec![
        Level::Trace,
        Level::Debug,
        Level::Info,
        Level::Debug,
        Level::Trace,
    ];
    levels.sort();

    assert_eq!(
        levels,
        vec![
            Level::Info,
            Level::Debug,
            Level::Debug,
            Level::Trace,
            Level::Trace
        ]
    );
}
