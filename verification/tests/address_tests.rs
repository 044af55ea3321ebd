use cytah_core::address::{format_address, parse_address, AddressError};
use cytah_core::rpc::{parse_hash, CallContractRequest, CallContractResponse, DeployContractRequest, DeployContractResponse};
use cytah_core::transaction::TxPayload;

#[test]
fn test_address_format() {
    let addr: [u8; 20] = [1u8; 20];
    let s = format_address(addr);
    assert_eq!(s.len(), 3 + 40);
    assert!(s.starts_with("cyt"));
}

#[test]
fn test_address_parsing() {
    let addr_str = "0102030405060708090a0b0c0d0e0f1011121314";
    let addr: [u8; 20] = hex::decode(addr_str).unwrap().try_into().unwrap();
    assert_eq!(addr.len(), 20);
}

#[test]
fn format_writes_lower_case_hex() {
    let mut addr = [0u8; 20];
    addr[0] = 0xab;
    addr[19] = 0x01;
    assert_eq!(format_address(addr), "cytab00000000000000000000000000000000000001");
}

#[test]
fn parse_reads_back_formatted_address() {
    let addr: [u8; 20] = [0x5a; 20];
    assert_eq!(parse_address(&format_address(addr)), Ok(addr));
}

#[test]
fn parse_accepts_upper_case_digits() {
    let s = format!("cyt{}", "AB".repeat(20));
    assert_eq!(parse_address(&s), Ok([0xab; 20]));
}

#[test]
fn parse_errors() {
    assert_eq!(parse_address("xyz0102"), Err(AddressError::MissingPrefix));
    assert_eq!(parse_address("cy"), Err(AddressError::MissingPrefix));
    assert_eq!(parse_address("cytzz"), Err(AddressError::InvalidHex));
    assert_eq!(parse_address("cyt012"), Err(AddressError::InvalidHex));
    assert_eq!(parse_address("cyt0102"), Err(AddressError::InvalidLength));
    assert_eq!(parse_address("cytéé"), Err(AddressError::InvalidHex));
}

#[test]
fn hash_text_must_have_32_bytes() {
    let text = "00".repeat(31) + "ff";
    let h = parse_hash(&text).unwrap();
    assert_eq!(h[31], 0xff);
    assert!(parse_hash("00ff").is_none());
    assert!(parse_hash("zz").is_none());
}

#[test]
fn deploy_request_builds_transaction() {
    let from = format_address([7; 20]);
    let req = DeployContractRequest { from, nonce: 4, wasm_code: "0061736d".to_string(), init_args: Some("zz".to_string()) };
    let tx = req.to_transaction().unwrap();
    assert_eq!(tx.from, [7; 20]);
    assert_eq!(tx.nonce, 4);
    assert_eq!(tx.gas_limit, 1_000_000);
    assert_eq!(tx.gas_price, 1);
    match tx.payload {
        TxPayload::ContractDeploy { wasm_code, init_args } => {
            assert_eq!(wasm_code, vec![0x00, 0x61, 0x73, 0x6d]);
            assert!(init_args.is_empty());
        }
        _ => panic!("expected a deployment"),
    }
    let bad = DeployContractRequest { from: "nope".to_string(), nonce: 0, wasm_code: "00".to_string(), init_args: None };
    assert!(bad.to_transaction().is_none());
    let bad_code = DeployContractRequest { from: format_address([7; 20]), nonce: 0, wasm_code: "0".to_string(), init_args: None };
    assert!(bad_code.to_transaction().is_none());
}

#[test]
fn call_request_builds_transaction() {
    let req = CallContractRequest {
        from: format_address([1; 20]),
        nonce: 2,
        contract_address: format_address([9; 20]),
        method: "transfer".to_string(),
        args: Some("0a0b".to_string()),
    };
    let tx = req.to_transaction().unwrap();
    match tx.payload {
        TxPayload::ContractCall { contract_address, method, args } => {
            assert_eq!(contract_address, [9; 20]);
            assert_eq!(method, "transfer");
            assert_eq!(args, vec![0x0a, 0x0b]);
        }
        _ => panic!("expected a call"),
    }
    let bad = CallContractRequest { contract_address: "cyt00".to_string(), ..req };
    assert!(bad.to_transaction().is_none());
    let ok = CallContractResponse::submitted();
    assert_eq!(ok.status, "success");
    assert!(ok.result.is_none());
}

#[test]
fn deploy_response_from_digest() {
    let mut digest = [0u8; 32];
    digest[0] = 0x12;
    digest[31] = 0x34;
    let r = DeployContractResponse::from_digest(&digest);
    assert_eq!(r.contract_address, format!("cyt12{}", "00".repeat(19)));
    assert_eq!(r.tx_hash, format!("12{}34", "00".repeat(30)));
}
