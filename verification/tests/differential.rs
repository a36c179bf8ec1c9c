//! Long pseudo-random runs of inserts and deletes, checked against the exact
//! tree shapes (keys, balance factors or colours, and positions) that the
//! textbook algorithms produce.

use moneymaker::avl::AVLTree;
use moneymaker::draw::{DrawRow, Mark};
use moneymaker::rbt::RedBlackTree;

/// Operations: (insert?, key), from a small linear congruential generator.
fn ops(seed: u64, n: usize, keyspace: u64) -> Vec<(bool, u32)> {
    let mut x = seed;
    let mut out = Vec::new();
    for _ in 0..n {
        x = (x * 1103515245 + 12345) % (1 << 31);
        let k = (x >> 8) % keyspace;
        x = (x * 1103515245 + 12345) % (1 << 31);
        let ins = (x >> 8) % 3 != 0;
        out.push((ins, k as u32));
    }
    out
}

fn signature(rows: &[DrawRow]) -> String {
    rows.iter()
        .map(|r| {
            let mark = match r.mark {
                Mark::Balance(b) => b.to_string(),
                Mark::Color(c) => c.tag().to_string(),
            };
            let path: String = r.path.iter().map(|&p| if p { '1' } else { '0' }).collect();
            format!("{}:{}:{}", r.key, mark, path)
        })
        .collect::<Vec<_>>()
        .join(";")
}

fn run_avl(seed: u64) -> (usize, usize, String) {
    let mut t = AVLTree::new();
    let (mut deleted, mut total) = (0, 0);
    for (ins, k) in ops(seed, 400, 120) {
        if ins {
            t.insert(k);
        } else {
            total += 1;
            if t.delete(k) {
                deleted += 1;
            }
        }
    }
    (deleted, total, signature(&t.rows()))
}

fn run_rb(seed: u64) -> (usize, usize, String) {
    let mut t = RedBlackTree::new();
    let (mut deleted, mut total) = (0, 0);
    for (ins, k) in ops(seed, 400, 120) {
        if ins {
            t.insert(k);
        } else {
            total += 1;
            if t.delete(k) {
                deleted += 1;
            }
        }
    }
    (deleted, total, signature(&t.rows()))
}

#[test]
fn avl_random_run_seed_7() {
    let expected = [
        "119:0:0000000;118:1:000000;115:0:00000010;113:-1:0000001;112:0:00000;108:0:00000100;107:-1",
        ":0000010;106:-1:000001;105:0:0000011;104:0:0000;103:0:00001000;102:0:0000100;100:0:0000100",
        "1;98:-1:000010;97:0:0000101;94:-1:00001;93:1:000011;91:0:0000111;90:-1:000;89:0:000100;88:",
        "0:00010;86:0:000101;85:1:0001;84:1:000110;83:0:0001101;82:-1:00011;81:0:000111;80:-1:00;79",
        ":0:001000;77:1:00100;76:0:0010010;74:-1:001001;73:0:0010;71:0:0010100;70:0:001010;69:0:001",
        "0101;68:-1:00101;64:0:001011;62:-1:001;60:0:001100;59:0:00110;58:0:001101;57:0:0011;54:1:0",
        "0111;53:0:001111;52:-1:0;51:0:0100000;50:-1:010000;48:0:01000;47:0:0100010;46:-1:010001;44",
        ":0:0100;41:0:0100100;40:0:010010;39:0:0100101;38:-1:01001;37:0:010011;36:-1:010;31:0:01010",
        "0;30:-1:01010;28:0:0101;27:0:010110;26:0:01011;25:0:010111;24:0:01;23:0:0110000;22:-1:0110",
        "00;21:0:01100;20:0:0110010;19:0:011001;18:0:0110011;17:0:0110;15:0:0110100;14:0:011010;13:",
        "0:0110101;11:0:01101;10:1:011011;8:0:0110111;7:-1:011;6:0:011100;5:0:01110;4:0:011101;3:0:",
        "0111;1:1:01111;0:0:011111",
    ]
    .concat();
    assert_eq!(run_avl(7), (70, 133, expected));
}

#[test]
fn rbt_random_run_seed_7() {
    let expected = [
        "119:B:00000;118:R:0000;115:R:000010;113:B:00001;112:B:000;108:R:000100;107:B:00010;106:R:0",
        "001;105:B:00011;104:B:00;103:R:0010000;102:B:001000;100:R:0010001;98:R:00100;97:B:001001;9",
        "4:B:0010;93:R:001010;91:B:00101;90:R:001011;89:R:001;88:B:00110;86:B:0011;85:R:0011100;84:",
        "B:001110;83:R:0011101;82:R:00111;81:B:001111;80:B:0;79:B:010000;77:B:01000;76:R:01000100;7",
        "4:B:0100010;73:R:010001;71:R:01000110;70:B:0100011;69:R:01000111;68:R:0100;64:B:0100100;62",
        ":R:010010;60:R:01001010;59:B:0100101;58:R:01001011;57:B:01001;54:B:010011;53:R:0100111;52:",
        "B:010;51:R:0101000;50:B:010100;48:B:01010;47:B:0101010;46:R:010101;44:B:0101011;41:R:0101;",
        "40:R:0101100;39:B:010110;38:B:01011;37:B:010111;36:R:01;31:B:011000;30:R:0110001;28:B:0110",
        "0;27:R:0110010;26:B:011001;25:R:0110011;24:R:0110;23:R:01101000;22:B:0110100;21:R:011010;2",
        "0:B:0110101;19:B:01101;18:B:011011;17:B:011;15:R:0111000;14:B:011100;13:R:0111001;11:B:011",
        "10;10:B:011101;8:R:0111011;7:R:0111;6:R:0111100;5:B:011110;4:R:0111101;3:B:01111;1:B:01111",
        "1;0:R:0111111",
    ]
    .concat();
    assert_eq!(run_rb(7), (70, 133, expected));
}

#[test]
fn avl_random_run_seed_2024() {
    let expected = [
        "117:0:000000;115:0:00000;113:0:000001;110:0:0000;108:0:000010;105:0:00001;104:0:000011;101",
        ":1:000;100:0:0001000;96:-1:000100;95:0:00010;94:1:000101;93:0:0001011;92:-1:0001;91:0:0001",
        "10;88:0:00011;87:0:000111;86:-1:00;84:0:001000;83:-1:00100;82:0:0010;79:0:001010;77:0:0010",
        "1;76:0:001011;75:0:001;73:0:001100;72:0:00110;71:0:001101;70:0:0011;69:1:00111;68:0:001111",
        ";67:1:0;66:0:0100000;65:-1:010000;64:0:01000;62:1:010001;60:0:0100011;59:0:0100;58:1:01001",
        "0;55:0:0100101;52:-1:01001;51:0:010011;50:0:010;49:1:01010;47:0:010101;46:1:0101;44:0:0101",
        "100;41:-1:010110;39:0:01011;38:0:0101110;37:0:010111;36:0:0101111;33:1:01;32:0:011000;29:1",
        ":01100;26:1:011001;25:0:0110011;24:-1:0110;23:0:011010;22:0:01101;21:0:011011;20:1:011;19:",
        "0:0111000;18:-1:011100;15:-1:01110;14:0:011101;13:1:0111;12:0:0111100;11:0:011110;10:0:011",
        "1101;8:1:01111;5:0:01111100;4:0:0111110;3:0:01111101;2:0:011111;1:1:0111111;0:0:01111111",
    ]
    .concat();
    assert_eq!(run_avl(2024), (56, 129, expected));
}

#[test]
fn rbt_random_run_seed_2024() {
    let expected = [
        "117:B:000000;115:R:00000;113:B:000001;110:B:0000;108:B:00001;105:R:000011;104:R:000;101:B:",
        "000100;100:R:0001001;96:R:00010;95:R:0001010;94:B:000101;93:R:0001011;92:B:0001;91:B:00011",
        "0;88:R:00011;87:B:000111;86:B:00;84:B:001000;83:R:00100;82:B:001001;79:R:0010011;77:B:0010",
        ";76:B:001010;75:R:00101;73:R:0010110;72:B:001011;71:R:001;70:B:00110;69:B:0011;68:B:00111;",
        "67:B:0;66:R:0100000;65:B:010000;64:R:0100001;62:B:01000;60:R:0100010;59:B:010001;58:R:0100",
        ";55:R:0100100;52:B:010010;51:R:0100101;50:B:01001;49:B:010011;47:R:0100111;46:B:010;44:R:0",
        "10100;41:B:01010;39:B:0101;38:R:010110;37:B:01011;36:R:010111;33:R:01;32:B:0110000;29:R:01",
        "1000;26:B:0110001;25:R:01100011;24:B:01100;23:B:0110010;22:R:011001;21:B:0110011;20:R:0110",
        ";19:B:0110100;18:R:011010;15:B:0110101;14:B:01101;13:B:011011;12:R:0110111;11:B:011;10:R:0",
        "11100;8:B:01110;5:B:0111;4:B:011110;3:R:0111101;2:R:01111;1:R:0111110;0:B:011111",
    ]
    .concat();
    assert_eq!(run_rb(2024), (56, 129, expected));
}
