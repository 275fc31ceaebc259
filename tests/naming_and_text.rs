use topic_taxonomy::filter::{distinct_episodes, filter_topics, is_intro_outro, is_ubiquitous};
use topic_taxonomy::naming::{
    backoff_delay, catch_all_name, classify_status, clean_llm_name, cluster_name, final_cluster_name,
    find_cluster_name, naming_topic, next_naming_step, normalized_occurrences, pause_before_call, topic_relevance_sec,
    topic_words, ClusterTopicOccurrence, LlmOutcome, NamingStep, TopicOccurrence,
};
use topic_taxonomy::records::{get_speaker_name_from_slug, is_cache_valid, SpeakerInfo};
use topic_taxonomy::text::normalize_for_match;

fn word_strings(text: &str) -> Vec<String> {
    topic_words(text).iter().map(|w| w.iter().collect()).collect()
}

fn strings(xs: &[&str]) -> Vec<String> {
    xs.iter().map(|s| s.to_string()).collect()
}

#[test]
fn normalize_for_match_folds_case_and_punctuation() {
    assert_eq!(normalize_for_match("Hello, World!  Foo"), "hello world foo");
    assert_eq!(normalize_for_match("  Ä-B_c  "), "ä b c");
    assert_eq!(normalize_for_match(""), "");
    assert_eq!(normalize_for_match("?!"), "");
}

#[test]
fn topic_words_drop_short_and_generic_words() {
    assert_eq!(word_strings("Die Zukunft der KI-Entwicklung!"), vec!["ki-entwicklung"]);
    assert_eq!(word_strings("Apple Vision Pro: Test & Preis"), vec!["apple", "vision", "pro", "test", "preis"]);
    // "für" is generic; "öl" has only two letters.
    assert_eq!(word_strings("Öl für Autos"), vec!["autos"]);
    assert_eq!(word_strings("Äpfel und Öle"), vec!["äpfel", "öle"]);
    assert!(word_strings("").is_empty());
}

#[test]
fn heuristic_name_from_the_best_two_terms() {
    let topics = vec![
        naming_topic("Podcasting Tools", &strings(&["Audio"]), 1),
        naming_topic("Podcasting Hardware", &strings(&[]), 1),
        naming_topic("Audio Mikrofone", &strings(&[]), 1),
    ];
    // audio: 2 (keyword) + 1 = 3; podcasting: 2; so "Audio & Podcasting".
    assert_eq!(find_cluster_name(&topics), "Audio & Podcasting");
}

#[test]
fn heuristic_name_single_term_when_leader_dominates() {
    let topics = vec![
        naming_topic("Apple Apple", &strings(&["apple", "Apple"]), 2),
        naming_topic("Banane", &strings(&[]), 1),
    ];
    // apple: 2 * 2 + 2 * 2 * 2 = 12; banane: 1.
    assert_eq!(find_cluster_name(&topics), "Apple");
}

#[test]
fn heuristic_name_capitalizes_with_unicode() {
    let topics = vec![naming_topic("ärger", &strings(&[]), 1)];
    assert_eq!(find_cluster_name(&topics), "Ärger");
}

#[test]
fn empty_terms_give_the_catch_all_name() {
    assert_eq!(catch_all_name(), "Sonstiges");
    let topics = vec![naming_topic("Die und das", &strings(&[]), 3)];
    assert_eq!(find_cluster_name(&topics), "Sonstiges");
    assert_eq!(find_cluster_name(&vec![]), "Sonstiges");
}

#[test]
fn outlier_clusters_get_the_catch_all_name() {
    let topics = vec![naming_topic("Podcasting", &strings(&[]), 1)];
    assert_eq!(cluster_name(true, &topics), "Sonstiges");
    assert_eq!(cluster_name(false, &topics), "Podcasting");
}

#[test]
fn naming_service_status_classes() {
    assert_eq!(classify_status(429, true), LlmOutcome::RateLimited);
    assert_eq!(classify_status(503, false), LlmOutcome::RateLimited);
    assert_eq!(classify_status(200, true), LlmOutcome::Named);
    assert_eq!(classify_status(200, false), LlmOutcome::Failed);
    assert_eq!(classify_status(500, true), LlmOutcome::Failed);
}

#[test]
fn retry_policy_backs_off_then_falls_back() {
    assert_eq!(next_naming_step(LlmOutcome::Named, 0, 3, 10_000), NamingStep::Accept);
    assert_eq!(next_naming_step(LlmOutcome::RateLimited, 0, 3, 10_000), NamingStep::Retry { delay_ms: 10_000 });
    assert_eq!(next_naming_step(LlmOutcome::RateLimited, 2, 3, 10_000), NamingStep::Retry { delay_ms: 40_000 });
    assert_eq!(next_naming_step(LlmOutcome::RateLimited, 1, 3, 500), NamingStep::Retry { delay_ms: 1_000 });
    assert_eq!(next_naming_step(LlmOutcome::Unreachable, 0, 3, 500), NamingStep::UseHeuristic);
    assert_eq!(next_naming_step(LlmOutcome::RateLimited, 3, 3, 10_000), NamingStep::UseHeuristic);
    assert_eq!(next_naming_step(LlmOutcome::Unreachable, 5, 3, 10_000), NamingStep::UseHeuristic);
    assert_eq!(next_naming_step(LlmOutcome::Failed, 0, 3, 10_000), NamingStep::UseHeuristic);
}

#[test]
fn backoff_saturates() {
    assert_eq!(backoff_delay(3, 4), 48);
    assert_eq!(backoff_delay(u64::MAX / 2, 3), u64::MAX);
    assert_eq!(backoff_delay(0, 100), 0);
}

#[test]
fn failed_naming_falls_back_to_heuristic() {
    assert_eq!(final_cluster_name(None, "Audio".to_string()), "Audio");
    assert_eq!(final_cluster_name(Some("Podcasting".to_string()), "Audio".to_string()), "Podcasting");
}

#[test]
fn pauses_every_fifty_calls() {
    assert!(!pause_before_call(0));
    assert!(!pause_before_call(49));
    assert!(pause_before_call(50));
    assert!(pause_before_call(100));
}

#[test]
fn llm_answers_are_trimmed_and_unquoted() {
    assert_eq!(clean_llm_name("  \"Podcasting\" \n"), "Podcasting");
    assert_eq!(clean_llm_name("'Apple' & \"Co\""), "Apple & Co");
    assert_eq!(clean_llm_name("   "), "");
}

#[test]
fn occurrences_fill_missing_timing() {
    let occ = Some(vec![
        TopicOccurrence { episode_number: 7, duration_sec: Some(120), position_sec: None },
        TopicOccurrence { episode_number: 9, duration_sec: None, position_sec: Some(30) },
    ]);
    let r = normalized_occurrences(&occ, &vec![1, 2, 3], 300);
    assert_eq!(
        r,
        vec![
            ClusterTopicOccurrence { episode_number: 7, duration_sec: 120, position_sec: 0 },
            ClusterTopicOccurrence { episode_number: 9, duration_sec: 300, position_sec: 30 },
        ]
    );
    assert_eq!(topic_relevance_sec(&occ, &vec![1, 2, 3], 300), 420);
}

#[test]
fn occurrences_default_to_one_per_episode() {
    let r = normalized_occurrences(&None, &vec![4, 5], 60);
    assert_eq!(r.len(), 2);
    assert_eq!(r[1], ClusterTopicOccurrence { episode_number: 5, duration_sec: 60, position_sec: 0 });
    assert_eq!(topic_relevance_sec(&Some(vec![]), &vec![4, 5], 60), 120);
}

#[test]
fn intro_and_outro_topics_are_recognised() {
    assert!(is_intro_outro("Intro"));
    assert!(is_intro_outro("Das OUTRO der Folge"));
    assert!(!is_intro_outro("Interview"));
    assert!(!is_intro_outro("Apple"));
}

#[test]
fn ubiquity_threshold_is_inclusive() {
    assert!(is_ubiquitous(9, 10, 900));
    assert!(!is_ubiquitous(8, 10, 900));
    assert!(is_ubiquitous(10, 10, 900));
}

#[test]
fn distinct_episodes_counts_each_once() {
    let d = distinct_episodes(&vec![vec![1, 2], vec![2, 3], vec![]]);
    assert_eq!(d, vec![1, 2, 3]);
}

#[test]
fn ubiquitous_intro_topic_is_filtered_out() {
    let texts = strings(&["Intro", "Apple Vision", "Wetter", "Podcasting"]);
    let episodes = vec![vec![1, 2, 3, 4, 5], vec![1, 2], vec![1, 2, 3, 4, 5], vec![3]];
    let kept = filter_topics(&texts, &episodes, 900);
    // "Intro" goes by name; "Wetter" appears in every episode.
    assert_eq!(kept, vec![1, 3]);
}

#[test]
fn speaker_lookup_by_slug() {
    let speaker = |name: &str, slug: &str| SpeakerInfo {
        speaker: name.to_string(),
        slug: slug.to_string(),
        episodes_count: 1,
        utterances_count: 2,
        total_words: 3,
        has_profile: false,
        image: None,
    };
    let index = vec![speaker("Anna", "anna"), speaker("Ben", "ben"), speaker("Ben Two", "ben")];
    assert_eq!(get_speaker_name_from_slug(&index, &"ben".to_string()), Some("Ben".to_string()));
    assert_eq!(get_speaker_name_from_slug(&index, &"carl".to_string()), None);
}

#[test]
fn cache_validity_by_modification_time() {
    assert!(is_cache_valid(100, 90));
    assert!(is_cache_valid(100, 100));
    assert!(!is_cache_valid(100, 101));
}
