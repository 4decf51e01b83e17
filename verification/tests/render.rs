use roles_bot::guard::{Role, Server};
use roles_bot::draft::truncate;
use roles_bot::setup::SetupMessage;

struct Dice(u64);

impl Dice {
    fn roll(&mut self, sides: usize) -> usize {
        self.0 = self.0.wrapping_mul(6364136223846793005).wrapping_add(1442695040888963407);
        ((self.0 >> 33) as usize) % sides
    }

    fn text(&mut self, pieces: &[&str], most: usize) -> String {
        let count = self.roll(most + 1);
        let mut out = String::new();
        for _ in 0..count {
            out.push_str(pieces[self.roll(pieces.len())]);
        }
        out
    }
}

fn server() -> Server {
    Server {
        id: "S".to_string(),
        roles: vec![
            Role { id: "01ADM1N0000000000000000000".to_string(), name: "Admin".to_string(), rank: 1 },
            Role { id: "01DEV000000000000000000000".to_string(), name: "Dév".to_string(), rank: 2 },
            Role { id: "01M0D000000000000000000000".to_string(), name: "mod".to_string(), rank: 3 },
        ],
    }
}

/// The rendering, written as one walk over the characters of the content.
/// Nothing is rendered where a placeholder names no role.
fn render_by_walk(setup: &SetupMessage, emojis: &[&str], server: &Server) -> Option<String> {
    let content = setup.content();
    let slots = setup.role_slots();
    if slots.iter().any(|slot| server.role_by_id_or_name(&slot.role).is_none()) {
        return None;
    }
    if emojis.is_empty() {
        return Some(content.to_string());
    }
    let mut out = String::with_capacity(content.len());
    let mut slot = &slots[0];
    let mut index = 0;
    for (i, c) in content.char_indices() {
        if i >= slot.end {
            index += 1;
            if index < emojis.len() && index < slots.len() {
                slot = &slots[index];
            } else {
                out.push_str(&content[i..]);
                break;
            }
        }
        if i < slot.start {
            out.push(c);
            continue;
        }
        if i == slot.start {
            let emoji = emojis[index];
            let emoji = emojis::get(emoji).and_then(emojis::Emoji::shortcode).unwrap_or(emoji);
            let role = server.role_by_id_or_name(&slot.role)?;
            if setup.is_formatted() {
                out.push_str(&format!(":{emoji}:[]({})", role.id));
            } else {
                out.push_str(&format!(":{emoji}:[]({}) __{}__", role.id, role.name));
            }
            continue;
        }
    }
    Some(out)
}

/// The cut, written with std's iterator over characters.
fn truncate_by_std(content: &str, limit: usize) -> String {
    content.chars().take(limit).collect()
}

#[test]
fn rendering_agrees_with_a_walk_over_the_characters() {
    let pieces = [
        "{ROLE:Admin}", "{role:dév}", "{ROLE:MOD}", "{ROLE:Nobody}", "{ROLE:01DEV000000000000000000000}", " ", "x",
        "é", "🛠", "\n", "{", "}", ":a:[](01ADM1N0000000000000000000)", "formatted ", "exclusive ",
    ];
    let emojis = ["🛠", "🔧", "custom", "✅", "👍", "🟥"];
    let server = server();
    let mut dice = Dice(17);
    let mut rendered = 0;
    let mut failed = 0;
    for _ in 0..3000 {
        let template = dice.text(&pieces, 8);
        let Some(setup) = SetupMessage::parse("author".to_string(), &template) else {
            continue;
        };
        let count = dice.roll(5);
        let chosen: Vec<&str> = (0..count).map(|_| emojis[dice.roll(emojis.len())]).collect();
        let wanted = render_by_walk(&setup, &chosen, &server);
        match &wanted {
            Some(_) => rendered += 1,
            None => failed += 1,
        }
        assert_eq!(setup.with_emojis(&chosen, &server), wanted, "template {template:?} emojis {chosen:?}");
    }
    assert!(rendered > 500, "only {rendered} drafts were rendered");
    assert!(failed > 100, "only {failed} drafts failed to render");
}

#[test]
fn truncation_agrees_with_std_on_generated_texts() {
    let pieces = ["a", "é", "日", "🛠", "\n", "xyz"];
    let mut dice = Dice(29);
    for _ in 0..3000 {
        let text = dice.text(&pieces, 12);
        let limit = dice.roll(30);
        let cut = truncate(text.clone(), limit);
        assert_eq!(cut, truncate_by_std(&text, limit), "text {text:?} limit {limit}");
        assert!(cut.chars().count() <= limit);
        assert!(text.starts_with(&cut));
        assert!(text.chars().count() > limit || cut == text);
    }
}
