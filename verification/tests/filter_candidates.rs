use deamination::filter_candidates::{filter_inconsistent, filter_mutations};

fn lines(text: &[&str]) -> Vec<String> {
    text.iter().map(|line| line.to_string()).collect()
}

fn candidates() -> Vec<(String, u32)> {
    vec![
        ("21".to_string(), 4),
        ("21".to_string(), 7),
        ("21".to_string(), 13),
        ("21".to_string(), 15),
        ("21".to_string(), 19),
        ("21".to_string(), 25),
    ]
}

#[test]
fn test_filter_mutations() {
    let true_filtered_candidates: Vec<(String, u32)> = vec![
        ("21".to_string(), 7),
        ("21".to_string(), 13),
        ("21".to_string(), 15),
        ("21".to_string(), 19),
        ("21".to_string(), 25),
    ];
    let mutations = lines(&[
        "##fileformat=VCFv4.2",
        "#CHROM\tPOS\tID\tREF\tALT\tQUAL\tFILTER\tINFO",
        "chr21\t4\t.\tC\tT\t.\t.\t.",
        "chr21\t9\t.\tA\tG\t.\t.\t.",
        "chr20\t7\t.\tC\tT\t.\t.\t.",
    ]);

    let filtered_candidates = filter_mutations(candidates(), &mutations);
    assert_eq!(true_filtered_candidates, filtered_candidates);
}

#[test]
fn test_filter_inconsistent() {
    let true_filtered_candidates: Vec<(String, u32)> = vec![
        ("21".to_string(), 4),
        ("21".to_string(), 7),
        ("21".to_string(), 15),
    ];
    let consistent = lines(&[
        "track type=\"bedGraph\"",
        "chr21\t3\t8\t1",
        "chr21\t14\t16\t1",
        "chr20\t12\t20\t1",
    ]);

    let filtered_candidates =
        filter_inconsistent(candidates(), &consistent).expect("error filtering mutations");
    assert_eq!(true_filtered_candidates, filtered_candidates);
}
