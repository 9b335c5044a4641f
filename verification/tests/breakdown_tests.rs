use codecity_backend::breakdown::calculate_language_breakdown;
use codecity_backend::models::LanguageBreakdown;
use codecity_backend::stats::LanguageStats;

fn stats_of(counts: &[(&str, u64)]) -> LanguageStats {
    let mut stats = LanguageStats::new();
    for (language, lines) in counts {
        stats.add(language, *lines);
    }
    stats
}

fn rows(breakdown: &[LanguageBreakdown]) -> Vec<(String, u64, u64, String)> {
    breakdown
        .iter()
        .map(|e| (e.language.clone(), e.lines, e.total, e.color.clone()))
        .collect()
}

fn percentage(entry: &LanguageBreakdown) -> f64 {
    entry.lines as f64 / entry.total as f64 * 100.0
}

#[test]
fn breakdown_of_nothing_is_empty() {
    assert!(calculate_language_breakdown(&LanguageStats::new(), 0).is_empty());
    assert!(calculate_language_breakdown(&stats_of(&[("Rust", 0)]), 0).is_empty());
    assert!(calculate_language_breakdown(&stats_of(&[("Rust", 5)]), 0).is_empty());
}

#[test]
fn breakdown_lists_most_lines_first() {
    let stats = stats_of(&[("Python", 5), ("Rust", 10), ("Go", 7)]);
    let breakdown = calculate_language_breakdown(&stats, 22);
    assert_eq!(
        rows(&breakdown),
        vec![
            ("Rust".to_string(), 10, 22, "#DEA584".to_string()),
            ("Go".to_string(), 7, 22, "#00ADD8".to_string()),
            ("Python".to_string(), 5, 22, "#3776AB".to_string()),
        ]
    );
}

#[test]
fn breakdown_keeps_ties_in_the_order_of_the_counts() {
    let stats = stats_of(&[("Go", 3), ("Rust", 9), ("Python", 3), ("C", 9), ("Lua", 3)]);
    let breakdown = calculate_language_breakdown(&stats, 27);
    let names: Vec<&str> = breakdown.iter().map(|e| e.language.as_str()).collect();
    assert_eq!(names, vec!["Rust", "C", "Go", "Python", "Lua"]);
}

#[test]
fn scenario_two_thirds_and_one_third() {
    let stats = stats_of(&[("Rust", 10), ("Python", 5)]);
    let breakdown = calculate_language_breakdown(&stats, 15);
    assert_eq!(breakdown.len(), 2);
    assert_eq!(breakdown[0].language, "Rust");
    assert_eq!(breakdown[1].language, "Python");
    assert!((percentage(&breakdown[0]) - 66.666).abs() < 0.1);
    assert!((percentage(&breakdown[1]) - 33.333).abs() < 0.1);
}

#[test]
fn shares_lie_between_zero_and_a_hundred_percent() {
    let stats = stats_of(&[("Rust", 1), ("Python", 0), ("Go", 999)]);
    let breakdown = calculate_language_breakdown(&stats, 1000);
    assert_eq!(breakdown.len(), 3);
    for entry in &breakdown {
        assert_eq!(entry.total, 1000);
        assert!(entry.lines <= entry.total);
        assert!(percentage(entry) >= 0.0 && percentage(entry) <= 100.0);
    }
    assert_eq!(breakdown.iter().map(|e| e.lines).sum::<u64>(), 1000);
}

#[test]
fn unlisted_language_gets_the_neutral_color() {
    let breakdown = calculate_language_breakdown(&stats_of(&[("Fortran", 4)]), 4);
    assert_eq!(rows(&breakdown), vec![("Fortran".to_string(), 4, 4, "#8B8B8B".to_string())]);
}
