use nipah_tokenizer::split::SplitItem;
use nipah_tokenizer::token::TokenPosition;

#[test]
fn test_add() {
    let split_item = SplitItem {
        text: "Hello,".to_string(),
        position: TokenPosition::new(0, 0),
    };
    let sum_item = SplitItem {
        text: " World!".to_string(),
        position: TokenPosition::new(0, 0),
    };

    assert_eq!(
        split_item.add(sum_item),
        SplitItem {
            text: "Hello, World!".to_string(),
            position: TokenPosition::new(0, 0),
        }
    );
}

#[test]
fn add_combines_positions_componentwise() {
    let a = SplitItem::new_pl("x".to_string(), 7, 1);
    let b = SplitItem::new_pl("y".to_string(), 2, 3);
    let merged = a.add(b);
    assert_eq!(merged.text, "xy");
    assert_eq!(merged.position, TokenPosition::new(7, 3));
}
