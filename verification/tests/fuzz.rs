use rtcp::RtcpFb;

#[test]
fn fuzz_failures() {
    let tests: Vec<Vec<u8>> = vec![
        //
        vec![191, 202, 54, 74],
        vec![166, 202, 0, 2, 218, 54, 214, 222, 160, 2, 146, 0, 251],
        vec![
            151, 203, 0, 40, 88, 236, 217, 19, 82, 62, 73, 84, 112, 252, 69, 78, 38, 72, 43, 4,
            21, 136, 90, 29, 89, 70, 90, 196, 149, 168, 54, 1, 57, 16, 128, 8, 53, 172, 192, 248,
            175, 7, 92, 54, 82, 153, 179, 204, 181, 64, 94, 211, 67, 77, 110, 252, 181, 18, 53,
            48, 180, 179, 205, 234, 139, 61, 179, 54, 19, 120, 79, 119, 232, 208, 210, 73, 78, 28,
            242, 156, 242, 239, 19, 246, 183, 10, 49, 114, 216, 64, 105, 161, 50, 99, 156, 113,
            153, 90, 207, 53, 145, 96, 158, 198, 224, 114, 9, 20, 30, 156, 220, 56, 151, 216, 164,
            129, 156, 40, 85, 70, 189, 210, 146, 242, 242, 55, 70, 144, 113, 9, 44, 74, 22, 123,
            180, 153, 18, 88, 1, 185, 85, 227, 200, 62, 53, 142, 89, 28, 37, 128, 223, 36, 248,
            117, 26, 182, 173, 112, 42, 1, 2, 117, 203, 114, 179,
        ],
        vec![
            150, 202, 0, 54, 0, 149, 201, 0, 0, 138, 201, 0, 0, 152, 201, 0, 0, 151, 201, 0, 0,
            150, 201, 0, 0, 141, 201, 0, 0, 159, 201, 0, 0, 150, 201, 0, 0, 159, 201, 0, 0, 134,
            201, 0, 0, 143, 201, 0, 0, 162, 201, 0, 0, 166, 201, 0, 0, 177, 201, 0, 0, 182, 201,
            0, 0, 131, 201, 0, 0, 164, 201, 0, 0, 133, 201, 0, 0, 143, 201, 0, 0, 174, 201, 0, 0,
            186, 201, 0, 0, 165, 201, 0, 0, 173, 201, 0, 0, 186, 201, 0, 0, 166, 201, 0, 0, 159,
            201, 0, 0, 158, 201, 0, 0, 190, 201, 0, 0, 156, 201, 0, 0, 147, 201, 0, 0, 169, 201,
            0, 0, 135, 201, 0, 0, 148, 201, 0, 0, 132, 201, 0, 0, 138, 201, 0, 0, 162, 201, 0, 0,
            185, 201, 0, 0, 157, 201, 0, 0, 183, 201, 0, 0, 145, 201, 0, 0, 130, 201, 0, 0, 183,
            201, 0, 0, 152, 201, 0, 0, 153, 201, 0, 0, 154, 201, 0, 0, 138, 201, 0, 0, 148, 201,
            0, 0, 158, 201, 0, 0, 156, 201, 0, 0, 181, 201, 0, 0, 173, 201, 0, 0, 171, 201, 0, 0,
            169, 201, 0, 0, 167, 201, 41, 216,
        ],
    ];

    for t in &tests {
        let _ = RtcpFb::read_packet(t);
    }
}
