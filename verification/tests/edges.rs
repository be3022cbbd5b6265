use mochi_lib::generate_mora_edges;
use mochi_lib::AccentType;
use mochi_lib::KanaString;
use mochi_lib::MoraEdges;

#[test]
fn test_generate_mora_edges() {
    let t = generate_mora_edges(&KanaString::from("き".to_string()), &AccentType::Odaka);
    assert_eq!(t.len(), 2);
    assert_eq!(t[0].len(), 1);
    assert_eq!(t[0][0], MoraEdges::Top);
    assert_eq!(t[1].len(), 2);
    assert_eq!(t[1][0], MoraEdges::Left);
    assert_eq!(t[1][1], MoraEdges::Bottom);

    let t = generate_mora_edges(&KanaString::from("かわ".to_string()), &AccentType::Odaka);
    assert_eq!(t.len(), 3);
    assert_eq!(t[0].len(), 1);
    assert_eq!(t[0][0], MoraEdges::Bottom);
    assert_eq!(t[1].len(), 2);
    assert_eq!(t[1][0], MoraEdges::Left);
    assert_eq!(t[1][1], MoraEdges::Top);
    assert_eq!(t[2].len(), 2);
    assert_eq!(t[2][0], MoraEdges::Left);
    assert_eq!(t[2][1], MoraEdges::Bottom);

    let t = generate_mora_edges(&KanaString::from("じかん".to_string()), &AccentType::Heiban);
    assert_eq!(t.len(), 4);
    assert_eq!(t[0].len(), 1);
    assert_eq!(t[0][0], MoraEdges::Bottom);
    assert_eq!(t[1].len(), 2);
    assert_eq!(t[1][0], MoraEdges::Left);
    assert_eq!(t[1][1], MoraEdges::Top);
    assert_eq!(t[2].len(), 1);
    assert_eq!(t[2][0], MoraEdges::Top);
    assert_eq!(t[3].len(), 1);
    assert_eq!(t[3][0], MoraEdges::Top);

    let t = generate_mora_edges(
        &KanaString::from("てんき".to_string()),
        &AccentType::Atamadaka,
    );
    assert_eq!(t.len(), 4);
    assert_eq!(t[0].len(), 1);
    assert_eq!(t[0][0], MoraEdges::Top);
    assert_eq!(t[1].len(), 2);
    assert_eq!(t[1][0], MoraEdges::Left);
    assert_eq!(t[1][1], MoraEdges::Bottom);
    assert_eq!(t[2].len(), 1);
    assert_eq!(t[2][0], MoraEdges::Bottom);
    assert_eq!(t[3].len(), 1);
    assert_eq!(t[3][0], MoraEdges::Bottom);

    let t = generate_mora_edges(
        &KanaString::from("ひとつ".to_string()),
        &AccentType::Nakadaka(2),
    );
    assert_eq!(t.len(), 4);
    assert_eq!(t[0].len(), 1);
    assert_eq!(t[0][0], MoraEdges::Bottom);
    assert_eq!(t[1].len(), 2);
    assert_eq!(t[1][0], MoraEdges::Left);
    assert_eq!(t[1][1], MoraEdges::Top);
    assert_eq!(t[2].len(), 2);
    assert_eq!(t[2][0], MoraEdges::Left);
    assert_eq!(t[2][1], MoraEdges::Bottom);
    assert_eq!(t[3].len(), 1);
    assert_eq!(t[3][0], MoraEdges::Bottom);

    let t = generate_mora_edges(
        &KanaString::from("こうじょう".to_string()),
        &AccentType::Nakadaka(3),
    );
    assert_eq!(t.len(), 5);
    assert_eq!(t[0].len(), 1);
    assert_eq!(t[0][0], MoraEdges::Bottom);
    assert_eq!(t[1].len(), 2);
    assert_eq!(t[1][0], MoraEdges::Left);
    assert_eq!(t[1][1], MoraEdges::Top);
    assert_eq!(t[2].len(), 1);
    assert_eq!(t[2][0], MoraEdges::Top);
    assert_eq!(t[3].len(), 2);
    assert_eq!(t[3][0], MoraEdges::Left);
    assert_eq!(t[3][1], MoraEdges::Bottom);
    assert_eq!(t[4].len(), 1);
    assert_eq!(t[3][1], MoraEdges::Bottom);
}

#[test]
fn classify_follows_the_rule() {
    assert_eq!(mochi_lib::classify(0, 3), AccentType::Heiban);
    assert_eq!(mochi_lib::classify(1, 3), AccentType::Atamadaka);
    assert_eq!(mochi_lib::classify(3, 3), AccentType::Odaka);
    assert_eq!(mochi_lib::classify(2, 3), AccentType::Nakadaka(2));
    // index 1 is Atamadaka even for a one-mora reading
    assert_eq!(mochi_lib::classify(1, 1), AccentType::Atamadaka);
    // index 0 is Heiban whatever the mora count
    assert_eq!(mochi_lib::classify(0, 0), AccentType::Heiban);
}
