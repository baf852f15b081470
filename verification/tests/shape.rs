//! Laws on how little is edited, on where edits reach, and on the shape of parsed text.
use gdocdown::{
    diff_to_requests, doc_text_requests, markdown_to_model, model_to_markdown, model_to_plain,
    normalize_runs, reconcile_barriers, style_requests, sync_nodes, sync_requests, Block,
    BlockKind, CellEdit, CurNode, DocModel, Node, ParaSegment, Request, Run, Table, TextStyle,
};

/// All texts over the alphabet with at most `max` characters.
fn texts(alphabet: &[char], max: usize) -> Vec<String> {
    let mut all = vec![String::new()];
    let mut from = 0;
    for _ in 0..max {
        let to = all.len();
        for i in from..to {
            for c in alphabet {
                let mut s = all[i].clone();
                s.push(*c);
                all.push(s);
            }
        }
        from = to;
    }
    all
}

/// Carry text edits out on UTF-16 units; other requests change no text.
fn apply16(text: &str, reqs: &[Request]) -> String {
    let mut body: Vec<u16> = text.encode_utf16().collect();
    for r in reqs {
        match r {
            Request::InsertText(x) => {
                let at = x.location.index - 1;
                body.splice(at..at, x.text.encode_utf16());
            }
            Request::DeleteContentRange(x) => {
                body.drain(x.range.start_index - 1..x.range.end_index - 1);
            }
            _ => {}
        }
    }
    String::from_utf16(&body).unwrap()
}

/// The length of a longest common subsequence.
fn lcs(a: &[char], b: &[char]) -> usize {
    let mut row = vec![0; b.len() + 1];
    for x in a {
        let mut corner = 0;
        for (j, y) in b.iter().enumerate() {
            let above = row[j + 1];
            row[j + 1] = if x == y { corner + 1 } else { above.max(row[j]) };
            corner = above;
        }
    }
    row[b.len()]
}

/// How few characters must go and come between two texts.
fn distance(old: &str, new: &str) -> usize {
    let (a, b): (Vec<char>, Vec<char>) = (old.chars().collect(), new.chars().collect());
    a.len() + b.len() - 2 * lcs(&a, &b)
}

/// How much the text edits insert and delete.
fn edit_size(reqs: &[Request]) -> usize {
    reqs.iter()
        .map(|r| match r {
            Request::InsertText(x) => x.text.chars().count(),
            Request::DeleteContentRange(x) => x.range.end_index - x.range.start_index,
            _ => 0,
        })
        .sum()
}

/// A text of up to `max` characters of the alphabet.
fn random_text(seed: &mut u64, alphabet: &[char], max: u64) -> String {
    let mut next = || {
        *seed = seed.wrapping_mul(6364136223846793005).wrapping_add(1442695040888963407);
        *seed >> 33
    };
    let len = next() % max;
    (0..len).map(|_| alphabet[(next() % alphabet.len() as u64) as usize]).collect()
}

fn plain(s: &str) -> Run {
    Run { text: s.into(), style: TextStyle::default(), link: None, object: None }
}

fn para(kind: BlockKind, depth: u8, runs: Vec<Run>) -> Node {
    Node::Para(Block { kind, depth, runs })
}

// --- Few edits ---

#[test]
fn short_texts_are_edited_with_as_little_as_can_be() {
    let all = texts(&['a', 'b', '\n'], 5);
    for old in &all {
        for new in &all {
            let reqs = diff_to_requests(old, new);
            assert_eq!(edit_size(&reqs), distance(old, new), "{old:?} -> {new:?}: {reqs:?}");
        }
    }
}

#[test]
fn long_texts_are_edited_with_as_little_as_can_be() {
    let mut seed: u64 = 11;
    for (alphabet, rounds) in [(&['a', 'b'][..], 150), (&['a', 'b', 'c', 'd', 'e', '\n'][..], 150)] {
        for _ in 0..rounds {
            let old = random_text(&mut seed, alphabet, 260) + "\n";
            let new = random_text(&mut seed, alphabet, 260) + "\n";
            let least = distance(&old, &new);
            assert_eq!(edit_size(&diff_to_requests(&old, &new)), least, "{old:?} -> {new:?}");
            // Sparing the final line feed costs nothing.
            assert_eq!(edit_size(&doc_text_requests(&old, &new)), least, "{old:?} -> {new:?}");
        }
    }
}

#[test]
fn astral_characters_are_kept_too() {
    let all = texts(&['a', '\u{1F600}', '\u{1F601}'], 4);
    for old in &all {
        for new in &all {
            let reqs = diff_to_requests(old, new);
            let inserted: usize = reqs
                .iter()
                .map(|r| if let Request::InsertText(x) = r { x.text.chars().count() } else { 0 })
                .sum();
            let (a, b): (Vec<char>, Vec<char>) = (old.chars().collect(), new.chars().collect());
            assert_eq!(inserted, b.len() - lcs(&a, &b), "{old:?} -> {new:?}: {reqs:?}");
        }
    }
}

#[test]
fn as_many_barriers_stay_as_can() {
    let words = texts(&['T', 'R', 'C'], 4);
    for have in &words {
        let mut nodes = vec![];
        let mut at = 1;
        for k in have.chars() {
            nodes.push(CurNode::Paras(ParaSegment { start_index: at, blocks: vec![] }));
            let (start_index, end_index) = (at + 1, at + 3);
            nodes.push(match k {
                'T' => CurNode::Table { start_index, end_index, cells: vec![] },
                'R' => CurNode::Rule { start_index, end_index },
                _ => CurNode::Toc { start_index, end_index },
            });
            at = end_index;
        }
        for want in &words {
            let model: DocModel = want
                .chars()
                .map(|k| match k {
                    'T' => Node::Table(Table { rows: vec![vec![vec![]]] }),
                    'R' => Node::Rule,
                    _ => Node::Toc,
                })
                .collect();
            let (ops, _, warnings) = reconcile_barriers(&nodes, &model, at);
            assert_eq!(ops.len() + warnings.len(), distance(have, want), "{have:?} -> {want:?}");
        }
    }
}

// --- Where edits reach ---

#[test]
fn the_final_line_feed_is_spared_whatever_comes() {
    let all = texts(&['a', '\u{1F600}', '\n'], 3);
    for old in &all {
        let old = format!("{old}\n");
        let len = old.encode_utf16().count();
        for new in &all {
            for r in doc_text_requests(&old, new) {
                match r {
                    Request::InsertText(x) => assert!(x.location.index <= len, "{old:?} -> {new:?}"),
                    Request::DeleteContentRange(x) => assert!(x.range.end_index <= len, "{old:?} -> {new:?}"),
                    other => panic!("no text edit: {other:?}"),
                }
            }
        }
    }
}

#[test]
fn an_empty_model_grows_and_a_full_one_shrinks() {
    let empty: DocModel = vec![];
    let full = markdown_to_model("# one\n\ntwo **b**\n\n* three");
    assert_eq!(apply16("", &sync_requests(&empty, &full)), "one\ntwo b\nthree\n");
    assert_eq!(apply16(&model_to_plain(&full), &sync_requests(&full, &empty)), "\n");
    assert!(sync_requests(&empty, &empty).is_empty());
}

#[test]
fn regions_come_to_their_text_and_keep_their_end() {
    let block = |s: &str| Block { kind: BlockKind::Normal, depth: 0, runs: vec![plain(s)] };
    let old = ["one", "two\u{1F600}", "three"];
    let new = ["", "x", "two", "one more", "\u{1F600}"];
    for a in old {
        for b in new {
            for c in new {
                let nodes = vec![
                    CurNode::Paras(ParaSegment { start_index: 1, blocks: vec![block(a)] }),
                    CurNode::Table {
                        start_index: 40,
                        end_index: 60,
                        cells: vec![vec![CellEdit { start_index: 43, runs: vec![plain("cell")] }]],
                    },
                    CurNode::Paras(ParaSegment { start_index: 60, blocks: vec![block("x"), block(a)] }),
                ];
                let model = vec![
                    para(BlockKind::Normal, 0, vec![plain(b)]),
                    Node::Table(Table { rows: vec![vec![vec![plain(c)]]] }),
                    para(BlockKind::Normal, 0, vec![plain(c)]),
                ];
                let len = a.encode_utf16().count();
                // Where the line feed at the end of each region stands.
                let ends = [(1, 1 + len), (43, 47), (60, 62 + len)];
                let reqs = sync_nodes(&nodes, &model);
                // Each region comes to its text, and what stands between them stays.
                let (gap, next) = ("#".repeat(42 - 1 - len), "#".repeat(12));
                let before = format!("{a}\n{gap}cell\n{next}x\n{a}\n");
                assert_eq!(apply16(&before, &reqs), format!("{b}\n{gap}{c}\n{next}{c}\n"));
                for r in reqs {
                    if let Request::DeleteContentRange(x) = r {
                        let (from, to) = (x.range.start_index, x.range.end_index);
                        assert!(
                            ends.iter().any(|(start, end)| *start <= from && to <= *end),
                            "{a:?} {b:?} {c:?}: {from}..{to}"
                        );
                    }
                }
            }
        }
    }
}

// --- The shape of parsed text ---

#[test]
fn parsed_runs_are_in_normal_form() {
    let lines = [
        "**a****b**", "*a* b", "[a](u)[b](u)", "* item", "- [ ] task", "1. one", "#", "# h", "_a_",
        "![](gdoc:x)", "\\", "*", "-", "1.", "- [ ]", "  * deep ", "[](u)", "~~ ~~", "| p",
    ];
    let check = |runs: &Vec<Run>, md: &str| assert_eq!(&normalize_runs(runs.clone()), runs, "{md:?}");
    for a in lines {
        for b in lines {
            let md = format!("{a}\n{b}\n\n| {a} | {b} |\n| - | - |\n| x |");
            for node in markdown_to_model(&md) {
                match node {
                    Node::Para(p) => {
                        check(&p.runs, &md);
                        assert!(!p.runs.is_empty() || matches!(p.kind, BlockKind::Heading(_)), "{md:?}");
                    }
                    Node::Table(t) => {
                        for cell in t.rows.iter().flatten() {
                            check(cell, &md);
                        }
                    }
                    _ => {}
                }
            }
        }
    }
}

#[test]
fn spaces_and_blank_lines_mean_nothing() {
    let lines = [
        "# head", "text", "* a", "  * b", "1. one", "   1. two", "---", "<!-- gdoc:toc -->", "- - -",
        "| h | i |", "| - | - |", "| x |", "tail **b**",
    ];
    let pads = ["", " ", "   ", "\t", " \t "];
    let mut seed: u64 = 5;
    let mut next = |n: u64| {
        seed = seed.wrapping_mul(6364136223846793005).wrapping_add(1442695040888963407);
        (seed >> 33) % n
    };
    for _ in 0..2000 {
        let count = 1 + next(8);
        let picked: Vec<&str> = (0..count).map(|_| lines[next(lines.len() as u64) as usize]).collect();
        let mut spaced = String::new();
        for (i, line) in picked.iter().enumerate() {
            if i == 0 || !(line.starts_with('|') && picked[i - 1].starts_with('|')) {
                for _ in 0..next(3) {
                    spaced.push_str(pads[next(5) as usize]);
                    spaced.push('\n');
                }
            }
            spaced.push_str(line);
            spaced.push_str(pads[next(5) as usize]);
            spaced.push('\n');
        }
        let md = picked.join("\n");
        assert_eq!(markdown_to_model(&spaced), markdown_to_model(&md), "{md:?} {spaced:?}");
    }
    // Between two pipe rows a blank line does mean something.
    assert_ne!(markdown_to_model("| h |\n\n| - |"), markdown_to_model("| h |\n| - |"));
}

#[test]
fn models_of_words_read_back() {
    let mut runs = vec![Run::object("image/1.png")];
    for bold in [false, true] {
        for italic in [false, true] {
            for strikethrough in [false, true] {
                for link in [None, Some("a/b.c9".to_string())] {
                    let style = TextStyle { bold, italic, strikethrough };
                    runs.push(Run { text: "Word".into(), style, link, object: None });
                }
            }
        }
    }
    for a in &runs {
        for b in &runs {
            let pair = normalize_runs(vec![a.clone(), b.clone()]);
            let model = vec![
                para(BlockKind::Heading(3), 0, pair.clone()),
                para(BlockKind::Heading(6), 0, vec![]),
                para(BlockKind::Normal, 0, pair.clone()),
                para(BlockKind::Bullet, 0, pair.clone()),
                para(BlockKind::Bullet, 1, vec![a.clone()]),
                para(BlockKind::Bullet, 2, vec![b.clone()]),
                para(BlockKind::Bullet, 1, pair.clone()),
                para(BlockKind::Number, 0, pair.clone()),
                para(BlockKind::Number, 1, pair.clone()),
                para(BlockKind::Checkbox, 0, pair.clone()),
                Node::Table(Table { rows: vec![vec![pair.clone(), vec![]], vec![vec![], pair.clone()]] }),
                Node::Rule,
                Node::Toc,
            ];
            let md = model_to_markdown(&model);
            assert_eq!(markdown_to_model(&md), model, "{md}");
        }
    }
}

// --- Inline objects ---

const OBJECT: char = '\u{FFFC}';

#[test]
fn one_stretch_is_edited_around_all_objects() {
    let around = texts(&['a', 'b', OBJECT], 2);
    let plain_texts = texts(&['a', 'b'], 2);
    for p in &around {
        for s in &around {
            for x in &around {
                for y in &plain_texts {
                    let (old, new) = (format!("{p}{x}{s}\n"), format!("{p}{y}{s}\n"));
                    let reqs = doc_text_requests(&old, &new);
                    for r in reqs.iter().chain(diff_to_requests(&old, &new).iter()) {
                        if let Request::InsertText(t) = r {
                            assert!(!t.text.contains(OBJECT), "{old:?} -> {new:?}: {r:?}");
                        }
                    }
                    assert_eq!(apply16(&old, &reqs), new);
                }
            }
        }
    }
}

#[test]
fn a_word_beside_an_image_is_edited() {
    let cur = markdown_to_model("one ![](gdoc:image/1) two\n\n![](gdoc:pageBreak)\n\nend");
    let des = markdown_to_model("one ![](gdoc:image/1) too\n\n![](gdoc:pageBreak)\n\nend");
    let reqs = sync_requests(&cur, &des);
    assert!(!reqs.is_empty());
    assert_eq!(apply16(&model_to_plain(&cur), &reqs), model_to_plain(&des));
    assert_eq!(model_to_plain(&des), "one \u{FFFC} too\n\u{FFFC}\nend\n");
}

#[test]
fn an_object_that_would_have_to_move_is_not_created() {
    // Keeping the text is the shorter edit, so the object would have to be inserted.
    let cur = markdown_to_model("![](gdoc:image/1)ab");
    let des = markdown_to_model("ab![](gdoc:image/1)");
    assert_eq!(apply16(&model_to_plain(&cur), &sync_requests(&cur, &des)), "ab\n");
}

#[test]
fn a_document_with_an_image_comes_to_its_text() {
    let image = || Run::object("image/1");
    let blocks = |s: &str| vec![Block { kind: BlockKind::Normal, depth: 0, runs: vec![image(), plain(s)] }];
    let nodes = vec![
        CurNode::Paras(ParaSegment { start_index: 1, blocks: blocks(" one") }),
        CurNode::Rule { start_index: 7, end_index: 9 },
        CurNode::Paras(ParaSegment { start_index: 9, blocks: blocks(" two") }),
    ];
    let model = vec![
        para(BlockKind::Normal, 0, vec![image(), plain(" won")]),
        Node::Rule,
        para(BlockKind::Normal, 0, vec![plain("so "), image(), plain(" two")]),
    ];
    let reqs = sync_nodes(&nodes, &model);
    assert_eq!(
        apply16("\u{FFFC} one\n##\u{FFFC} two\n", &reqs),
        "\u{FFFC} won\n##so \u{FFFC} two\n"
    );
}

// --- Paragraph styles ---

/// A paragraph: its text, its named style, and the preset of its list and its level.
#[derive(Clone, Debug, PartialEq)]
struct Para {
    text: String,
    named: String,
    list: Option<(String, usize)>,
}

/// Carry paragraph styles and lists out. Making a list turns leading tabs into levels.
fn restyle(paras: &mut Vec<Para>, reqs: &[Request]) {
    for r in reqs {
        let mut at = 1;
        for p in paras.iter_mut() {
            let next = at + p.text.chars().count() + 1;
            let reaches = |start: usize, end: usize| start < next && at < end;
            match r {
                Request::InsertText(x) if at <= x.location.index && x.location.index < next => {
                    p.text.insert_str(x.location.index - at, &x.text);
                }
                Request::DeleteParagraphBullets(x) if reaches(x.range.start_index, x.range.end_index) => {
                    p.list = None;
                }
                Request::UpdateParagraphStyle(x) if reaches(x.range.start_index, x.range.end_index) => {
                    p.named = x.paragraph_style.named_style_type.clone();
                }
                Request::CreateParagraphBullets(x) if reaches(x.range.start_index, x.range.end_index) => {
                    let tabs = p.text.chars().take_while(|c| *c == '\t').count();
                    p.text = p.text[tabs..].to_string();
                    p.list = Some((x.bullet_preset.clone(), tabs));
                }
                _ => {}
            }
            at = next;
        }
    }
}

#[test]
fn paragraphs_have_their_styles_and_levels_after_the_pass() {
    let kinds = [
        (BlockKind::Heading(2), 0, "HEADING_2", None),
        (BlockKind::Normal, 0, "NORMAL_TEXT", None),
        (BlockKind::Bullet, 0, "NORMAL_TEXT", Some("BULLET_DISC_CIRCLE_SQUARE")),
        (BlockKind::Bullet, 2, "NORMAL_TEXT", Some("BULLET_DISC_CIRCLE_SQUARE")),
        (BlockKind::Number, 1, "NORMAL_TEXT", Some("NUMBERED_DECIMAL_ALPHA_ROMAN")),
        (BlockKind::Checkbox, 0, "NORMAL_TEXT", Some("BULLET_CHECKBOX")),
    ];
    let mut seed: u64 = 3;
    let mut next = |n: usize| {
        seed = seed.wrapping_mul(6364136223846793005).wrapping_add(1442695040888963407);
        (seed >> 33) as usize % n
    };
    for _ in 0..3000 {
        let mut pick = |k: usize, text: usize| {
            let (kind, depth, named, list) = kinds[k];
            let text = ["", "x", "two words", "end"][text].to_string();
            let block = Block { kind, depth, runs: vec![plain(&text)] };
            let styled = Para {
                text,
                named: named.to_string(),
                list: list.map(|l| (l.to_string(), depth as usize)),
            };
            (block, styled)
        };
        let n = next(6);
        let des: Vec<(Block, Para)> = (0..n).map(|_| pick(next(6), next(4))).collect();
        let blocks: Vec<Block> = des.iter().map(|d| d.0.clone()).collect();
        let goal: Vec<Para> = des.iter().map(|d| d.1.clone()).collect();
        // Everything is inserted, into paragraphs of any style.
        let mut paras: Vec<Para> = goal
            .iter()
            .map(|p| Para { text: p.text.clone(), ..pick(next(6), 0).1 })
            .collect();
        restyle(&mut paras, &style_requests(&[], &blocks));
        assert_eq!(paras, goal, "{blocks:?}");
        // Some paragraphs change their kind where they stand; no two have the same text.
        let mut blocks = blocks;
        let mut goal = goal;
        for i in 0..n {
            let text = format!("{i} {}", goal[i].text);
            blocks[i].runs = vec![plain(&text)];
            goal[i].text = text;
        }
        let mut cur = blocks.clone();
        let mut paras = goal.clone();
        for i in 0..n {
            if next(3) == 0 {
                let (block, styled) = pick(next(6), 0);
                cur[i].kind = block.kind;
                cur[i].depth = block.depth;
                paras[i].named = styled.named;
                paras[i].list = styled.list;
            }
        }
        restyle(&mut paras, &style_requests(&cur, &blocks));
        assert_eq!(paras, goal, "{cur:?} -> {blocks:?}");
    }
}
