use forust::booster::GradientBooster;
use forust::data::Matrix;
use forust::tree::Node;

const S: i64 = 1_000_000;

fn fixed(text: &str) -> i128 {
    let (sign, rest) = match text.strip_prefix('-') {
        Some(r) => (-1i128, r),
        None => (1i128, text),
    };
    let (whole, frac) = rest.split_once('.').unwrap();
    assert_eq!(frac.len(), 6);
    sign * (whole.parse::<i128>().unwrap() * 1_000_000 + frac.parse::<i128>().unwrap())
}

fn field<'a>(line: &'a str, key: &str) -> &'a str {
    let start = line.find(key).unwrap() + key.len();
    let rest = &line[start..];
    let end = rest.find(|c| c == ',' || c == ']' || c == ' ').unwrap_or(rest.len());
    &rest[..end]
}

fn parse(text: &str) -> Vec<Node> {
    let mut nodes = Vec::new();
    for (i, line) in text.lines().enumerate() {
        let (index, rest) = line.split_once(':').unwrap();
        assert_eq!(index.parse::<usize>().unwrap(), i);
        let depth = field(rest, "depth=").parse::<usize>().unwrap();
        if rest.starts_with("leaf=") {
            nodes.push(Node::Leaf {
                value: fixed(field(rest, "leaf=")),
                weight: fixed(field(rest, "weight=")),
                depth,
            });
        } else {
            nodes.push(Node::Split {
                feature: field(rest, "[").parse::<usize>().unwrap(),
                bin: field(rest, "bin=").parse::<u16>().unwrap(),
                threshold: fixed(field(rest, "<= ")) as i64,
                left: field(rest, "yes=").parse::<usize>().unwrap(),
                right: field(rest, "no=").parse::<usize>().unwrap(),
                gain: fixed(field(rest, "gain=")),
                depth,
            });
        }
    }
    nodes
}

#[test]
fn dump_of_four_rows() {
    let data = vec![0, 1 * S, 2 * S, 3 * S];
    let m = Matrix::new(&data, 4, 1);
    let mut b = GradientBooster::new(Some("SquaredLoss"), Some(1), Some(S), Some(1), None, Some(0), Some(0), Some(0), None, Some(4), None).unwrap();
    assert_eq!(b.text_dump(), Vec::<String>::new());
    b.fit(&m, &[0, 0, S, S], &[S; 4], true).unwrap();
    let want = "0:[0 <= 1.500000] bin=1,yes=1,no=2,gain=0.500000,depth=0\n\
                1:leaf=-0.500000,weight=2.000000,depth=1\n\
                2:leaf=0.500000,weight=2.000000,depth=1\n";
    assert_eq!(b.text_dump(), vec![want.to_string()]);
    assert_eq!(b.trees()[0].dump(), want);
}

#[test]
fn dump_read_back_gives_the_trees() {
    let rows = 48usize;
    let cols = 3usize;
    let mut data: Vec<i64> = Vec::new();
    let mut y: Vec<i64> = Vec::new();
    for r in 0..rows {
        let a = ((r * 31) % 19) as i64 - 9;
        let c = ((r * 7) % 5) as i64;
        let d = (r % 3) as i64;
        data.push(a * 333_333);
        data.push(c * S);
        data.push(-d * 1_234_567);
        y.push(a * 700_001 - c * 123_457 + d);
    }
    let m = Matrix::new(&data, rows, cols);
    let mut b = GradientBooster::new(Some("SquaredLoss"), Some(7), Some(300_000), Some(4), Some(9), Some(S), Some(1000), Some(S), None, Some(32), None).unwrap();
    b.fit(&m, &y, &vec![S; rows], true).unwrap();
    let text = b.text_dump();
    assert_eq!(text.len(), 7);
    for (t, tree) in b.trees().iter().enumerate() {
        let read = parse(&text[t]);
        let nodes = tree.nodes();
        assert_eq!(read.len(), nodes.len());
        for i in 0..nodes.len() {
            assert_eq!(read[i], nodes[i]);
        }
    }
}
