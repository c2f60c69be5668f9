use langdetect::engine::{accept, decide, get_likelihood_of_lang, rank, ScoredCandidate};
use langdetect::error::LangError;
use langdetect::score::{compression_ratio, score, RawRatio};
use langdetect::store::Detector;

const ENGLISH: &str = "All human beings are born free and equal in dignity and rights. They are endowed with reason and conscience and should act towards one another in a spirit of brotherhood. Everyone is entitled to all the rights and freedoms set forth in this Declaration, without distinction of any kind, such as race, colour, sex, language, religion, political or other opinion, national or social origin, property, birth or other status. Everyone has the right to life, liberty and security of person.";
const FRENCH: &str = "Tous les êtres humains naissent libres et égaux en dignité et en droits. Ils sont doués de raison et de conscience et doivent agir les uns envers les autres dans un esprit de fraternité. Chacun peut se prévaloir de tous les droits et de toutes les libertés proclamés dans la présente Déclaration, sans distinction aucune, notamment de race, de couleur, de sexe, de langue, de religion, d'opinion politique ou de toute autre opinion, d'origine nationale ou sociale, de fortune, de naissance ou de toute autre situation. Tout individu a droit à la vie, à la liberté et à la sûreté de sa personne.";
const SPANISH: &str = "Todos los seres humanos nacen libres e iguales en dignidad y derechos y, dotados como están de razón y conciencia, deben comportarse fraternalmente los unos con los otros. Toda persona tiene todos los derechos y libertades proclamados en esta Declaración, sin distinción alguna de raza, color, sexo, idioma, religión, opinión política o de cualquier otra índole, origen nacional o social, posición económica, nacimiento o cualquier otra condición. Todo individuo tiene derecho a la vida, a la libertad y a la seguridad de su persona.";

fn three_languages() -> Detector {
    let mut d = Detector::new();
    d.add_str(ENGLISH, "english".to_string());
    d.add_str(FRENCH, "french".to_string());
    d.add_str(SPANISH, "spanish".to_string());
    d
}

#[test]
fn english_sentence_ranks_english_first() {
    let d = three_languages();
    let sample = "Everyone has the right to freedom of thought, conscience and religion.";
    let ranked = rank(&d, sample.as_bytes(), 3).unwrap();
    assert_eq!(ranked.len(), 3);
    assert_eq!(ranked[0].0, "english");
}

#[test]
fn rank_is_bounded_and_sorted() {
    let d = three_languages();
    let sample = "Toute personne a droit à la liberté de pensée, de conscience et de religion.";
    let ranked = rank(&d, sample.as_bytes(), 2).unwrap();
    assert!(ranked.len() <= 2);
    for w in ranked.windows(2) {
        assert!(w[0].1 >= w[1].1);
    }
    let all = rank(&d, sample.as_bytes(), 10).unwrap();
    assert_eq!(all.len(), 3);
    for w in all.windows(2) {
        assert!(w[0].1 >= w[1].1);
    }
    assert_eq!(rank(&d, sample.as_bytes(), 0).unwrap().len(), 0);
}

#[test]
fn rank_twice_gives_the_same_answer() {
    let d = three_languages();
    let sample = b"Nadie estara sometido a esclavitud ni a servidumbre.";
    let first = rank(&d, sample, 3).unwrap();
    let second = rank(&d, sample, 3).unwrap();
    assert_eq!(first, second);
}

#[test]
fn a_reference_is_closest_to_itself() {
    let d = three_languages();
    let all = get_likelihood_of_lang(&d, FRENCH.as_bytes()).unwrap();
    let french = all.iter().find(|c| c.language_id == "french").unwrap();
    for c in &all {
        // together / separate of french is at most that of every other
        assert!(
            (french.raw_ratio.together as u128) * (c.raw_ratio.separate as u128)
                <= (c.raw_ratio.together as u128) * (french.raw_ratio.separate as u128)
        );
    }
}

#[test]
fn empty_sample_is_an_error() {
    let d = three_languages();
    assert_eq!(accept(&d, b"", &"english".to_string(), 3, 0, None), Err(LangError::EmptyInput));
    assert_eq!(rank(&d, b"", 3), Err(LangError::EmptyInput));
}

#[test]
fn empty_store_is_an_error() {
    let d = Detector::new();
    assert_eq!(rank(&d, b"hello", 3), Err(LangError::NoReferenceFiles));
    assert_eq!(accept(&d, b"hello", &"english".to_string(), 3, 0, None), Err(LangError::NoReferenceFiles));
}

#[test]
fn threshold_policy_is_monotonic_in_the_floor() {
    let d = three_languages();
    let sample = b"No one shall be held in slavery or servitude.";
    let desired = "english".to_string();
    let floors: [i128; 7] = [-10_000_000, -1, 0, 500_000, 1_000_000, 2_000_000, 100_000_000];
    let mut rejected = false;
    for f in floors {
        let ok = accept(&d, sample, &desired, 3, f, None).unwrap();
        if rejected {
            assert!(!ok);
        }
        if !ok {
            rejected = true;
        }
    }
    assert!(accept(&d, sample, &desired, 3, i128::MIN, None).unwrap());
    assert!(!accept(&d, sample, &desired, 3, i128::MAX, None).unwrap());
}

fn candidate(id: &str, confidence: i128) -> ScoredCandidate {
    ScoredCandidate { language_id: id.to_string(), raw_ratio: RawRatio { together: 1, separate: 2 }, confidence }
}

#[test]
fn ratio_policy_rejects_a_tie() {
    let tie = vec![candidate("english", 1_500_000), candidate("french", 1_500_000)];
    assert!(!decide(&tie, &"english".to_string(), 3, 0, Some(1_000_000)));
    assert!(!decide(&tie, &"english".to_string(), 3, 0, Some(2_000_000)));
    let negative_tie = vec![candidate("english", -700), candidate("french", -700)];
    assert!(!decide(&negative_tie, &"english".to_string(), 3, -1000, Some(1_000_000)));
    let zero_tie = vec![candidate("english", 0), candidate("french", 0)];
    assert!(!decide(&zero_tie, &"english".to_string(), 3, -1, Some(1_000_000)));
}

#[test]
fn ratio_policy_decides_on_the_margin() {
    let r = vec![candidate("english", 3_000_000), candidate("french", 1_000_000), candidate("spanish", 0)];
    let en = "english".to_string();
    assert!(decide(&r, &en, 1, 0, Some(2_000_000)));
    assert!(!decide(&r, &en, 1, 0, Some(3_000_000)));
    assert!(!decide(&r, &en, 1, 3_000_000, Some(2_000_000)));
    assert!(!decide(&r, &"french".to_string(), 3, 0, Some(1)));
    let zero_second = vec![candidate("english", 5), candidate("french", 0)];
    assert!(decide(&zero_second, &en, 1, 0, Some(i64::MAX)));
    let single = vec![candidate("english", 5)];
    assert!(!decide(&single, &en, 1, 0, Some(1)));
}

#[test]
fn threshold_policy_looks_at_the_first_entries() {
    let r = vec![candidate("english", 3_000_000), candidate("french", 1_000_000), candidate("spanish", 500_000)];
    let fr = "french".to_string();
    assert!(decide(&r, &fr, 2, 0, None));
    assert!(!decide(&r, &fr, 1, 0, None));
    assert!(!decide(&r, &fr, 2, 1_000_000, None));
    assert!(decide(&r, &fr, 2, 999_999, None));
    assert!(!decide(&r, &"german".to_string(), 3, i128::MIN, None));
}

#[test]
fn both_empty_operands_are_an_error() {
    assert_eq!(compression_ratio(b"", b"", 5, 5), Err(LangError::EmptyInput));
    let r = compression_ratio(b"abc", b"", 8, 5).unwrap();
    assert_eq!(r.separate, 13);
    assert!(r.together >= 4);
}

#[test]
fn confidences_follow_the_formula() {
    // ratios 0.5 and 0.75; the worst is the second; mean size 20
    let c = score(&vec![10, 30], &vec![RawRatio { together: 10, separate: 20 }, RawRatio { together: 15, separate: 20 }]);
    assert_eq!(c, vec![1_000_000, 1_500_000]);
    // ratios above one: both complements are negative
    let c = score(&vec![10, 30], &vec![RawRatio { together: 25, separate: 20 }, RawRatio { together: 30, separate: 20 }]);
    assert_eq!(c, vec![250_000, 1_500_000]);
    // equal sizes, thirds truncate toward zero
    let c = score(&vec![10, 20], &vec![RawRatio { together: 10, separate: 20 }, RawRatio { together: 15, separate: 20 }]);
    assert_eq!(c, vec![1_333_333, 1_333_333]);
    // every ratio equal to one: all confidences tie at zero
    let c = score(&vec![10, 20], &vec![RawRatio { together: 20, separate: 20 }, RawRatio { together: 9, separate: 9 }]);
    assert_eq!(c, vec![0, 0]);
    // worst ratio above one, the other below: the better one turns negative
    let c = score(&vec![10, 10], &vec![RawRatio { together: 30, separate: 20 }, RawRatio { together: 10, separate: 20 }]);
    assert_eq!(c, vec![1_000_000, -1_000_000]);
}

#[test]
fn ties_keep_store_order() {
    let mut d = Detector::new();
    d.add_str("same text here", "b".to_string());
    d.add_str("same text here", "a".to_string());
    let all = get_likelihood_of_lang(&d, b"some sample").unwrap();
    assert_eq!(all[0].confidence, all[1].confidence);
    assert_eq!(all[0].language_id, "b");
    assert_eq!(all[1].language_id, "a");
}

#[test]
fn detect_reports_every_language() {
    let d = three_languages();
    let all = d.detect("Everyone has the right to life.").unwrap();
    assert_eq!(all.len(), 3);
    assert_eq!(all[0].language_id, "english");
}
