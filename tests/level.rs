use logger_rs::level::{level_color, Color, Level};

#[test]
fn level_colors_are_fixed_and_distinct() {
    let levels = [Level::Trace, Level::Debug, Level::Info, Level::Warn, Level::Error];
    let expected = [Color::White, Color::Blue, Color::Green, Color::Yellow, Color::Red];
    for (l, c) in levels.iter().zip(expected.iter()) {
        assert_eq!(level_color(*l), *c);
        assert_eq!(level_color(*l), level_color(*l));
    }
    for i in 0..5 {
        for j in 0..5 {
            if i != j {
                assert_ne!(level_color(levels[i]), level_color(levels[j]));
            }
        }
    }
}

#[test]
fn level_names() {
    assert_eq!(Level::Error.as_str(), "ERROR");
    assert_eq!(Level::Warn.as_str(), "WARN");
    assert_eq!(Level::Info.as_str(), "INFO");
    assert_eq!(Level::Debug.as_str(), "DEBUG");
    assert_eq!(Level::Trace.as_str(), "TRACE");
}
