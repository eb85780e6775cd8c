use base64::Engine;
use nkv::request_msg::{
    BaseMessage, BaseResp, DataResp, Message, PutMessage, ServerRequest, ServerResponse,
};

#[test]
fn test_server_request_from_str() {
    let id = "ID".to_string();
    let client_uuid = "CLIENT-UUID".to_string();
    let key = "KEY".to_string();

    let data: Vec<u8> = vec![1, 0, 13, 12];
    let engine = base64::engine::general_purpose::STANDARD;
    let value = engine.encode(&data);
    let req = format!("PUT {} {} {} {}", id, client_uuid, key, value);
    let result = ServerRequest::from_str(&req).unwrap();
    assert_eq!(
        result,
        ServerRequest::Put(PutMessage {
            base: BaseMessage {
                id: id.clone(),
                key: key.clone(),
                client_uuid: client_uuid.clone(),
            },
            value: data.into(),
        })
    );

    let req = format!("GET {} {} {}", id, client_uuid, key);
    let result = ServerRequest::from_str(&req).unwrap();
    assert_eq!(
        result,
        ServerRequest::Get(BaseMessage {
            id: id.clone(),
            key: key.clone(),
            client_uuid: client_uuid.clone(),
        })
    );

    let req = format!("DEL {} {} {}", id, client_uuid, key);
    let result = ServerRequest::from_str(&req).unwrap();
    assert_eq!(
        result,
        ServerRequest::Delete(BaseMessage {
            id: id.clone(),
            key: key.clone(),
            client_uuid: client_uuid.clone(),
        })
    );

    let req = format!("SUB {} {} {}", id, client_uuid, key);
    let result = ServerRequest::from_str(&req).unwrap();
    assert_eq!(
        result,
        ServerRequest::Subscribe(BaseMessage {
            id: id.clone(),
            key: key.clone(),
            client_uuid: client_uuid.clone(),
        })
    );

    let req = format!("UNSUB {} {} {}", id, client_uuid, key);
    let result = ServerRequest::from_str(&req).unwrap();
    assert_eq!(
        result,
        ServerRequest::Unsubscribe(BaseMessage {
            id: id.clone(),
            key: key.clone(),
            client_uuid: client_uuid.clone(),
        })
    );

    let req = format!("WRONG COMMAND");
    let result = ServerRequest::from_str(&req);
    assert_eq!(result.is_err(), true);

    let req = format!("GET");
    let result = ServerRequest::from_str(&req);
    assert_eq!(result.is_err(), true);

    let req = format!("GET {}", id);
    let result = ServerRequest::from_str(&req);
    assert_eq!(result.is_err(), true);

    let req = format!("GET {} {}", id, client_uuid);
    let result = ServerRequest::from_str(&req);
    assert_eq!(result.is_err(), true);
}

#[test]
fn test_server_request_to_str() {
    let id = "ID".to_string();
    let client_uuid = "CLIENT-UUID".to_string();
    let key = "KEY".to_string();

    let data: Vec<u8> = vec![1, 0, 13, 12];
    let req = ServerRequest::Put(PutMessage {
        base: BaseMessage {
            id: id.clone(),
            key: key.clone(),
            client_uuid: client_uuid.clone(),
        },
        value: data.clone().into(),
    });
    let engine = base64::engine::general_purpose::STANDARD;
    let value = engine.encode(data);
    let expected = format!("PUT {} {} {} {}", id, client_uuid, key, value);
    assert_eq!(req.to_string(), expected);

    let req = ServerRequest::Get(BaseMessage {
        id: id.clone(),
        key: key.clone(),
        client_uuid: client_uuid.clone(),
    });
    let expected = format!("GET {} {} {}", id, client_uuid, key);
    assert_eq!(req.to_string(), expected);

    let req = ServerRequest::Delete(BaseMessage {
        id: id.clone(),
        key: key.clone(),
        client_uuid: client_uuid.clone(),
    });
    let expected = format!("DEL {} {} {}", id, client_uuid, key);
    assert_eq!(req.to_string(), expected);

    let req = ServerRequest::Subscribe(BaseMessage {
        id: id.clone(),
        key: key.clone(),
        client_uuid: client_uuid.clone(),
    });
    let expected = format!("SUB {} {} {}", id, client_uuid, key);
    assert_eq!(req.to_string(), expected);

    let req = ServerRequest::Unsubscribe(BaseMessage {
        id: id.clone(),
        key: key.clone(),
        client_uuid: client_uuid.clone(),
    });
    let expected = format!("UNSUB {} {} {}", id, client_uuid, key);
    assert_eq!(req.to_string(), expected);
}

#[test]
fn test_server_response_to_str() {
    let id = "1".to_string();
    let resp = ServerResponse::Base(BaseResp {
        id: id.clone(),
        status: true,
    });
    assert_eq!(resp.to_string(), format!("{} OK", &id));

    let data: Vec<Vec<u8>> = vec![vec![1, 2, 3, 4]];
    let resp = ServerResponse::Data(DataResp {
        base: BaseResp {
            id: id.clone(),
            status: false,
        },
        data: data.clone(),
    });
    let engine = base64::engine::general_purpose::STANDARD;
    let value = engine.encode(&data[0]);
    assert_eq!(resp.to_string(), format!("{} FAILED {}", id, value))
}

#[test]
fn test_server_response_from_str() {
    let id = "1".to_string();
    let expected = ServerResponse::Base(BaseResp {
        id: id.clone(),
        status: true,
    });
    let got: ServerResponse = format!("{} OK", &id).parse().unwrap();
    assert_eq!(got, expected);

    let data: Vec<Vec<u8>> = vec![vec![1, 2, 3, 4]];
    let engine = base64::engine::general_purpose::STANDARD;
    let value = engine.encode(&data[0]);
    let got: ServerResponse = format!("{} FAILED {}", id, value).parse().unwrap();
    let expected = ServerResponse::Data(DataResp {
        base: BaseResp {
            id: id.clone(),
            status: false,
        },
        data: data.clone(),
    });
    assert_eq!(expected, got);
}

#[test]
fn test_message_to_str() {
    assert_eq!(Message::Hello.to_string(), format!("HELLO"));

    assert_eq!(Message::NotFound.to_string(), format!("NOTFOUND"));

    let key = "MYAWESOMEKEY".to_string();
    assert_eq!(
        Message::Close { key: key.clone() }.to_string(),
        format!("CLOSE {}", key.clone())
    );

    let data: Vec<u8> = vec![1, 0, 13, 12];
    let engine = base64::engine::general_purpose::STANDARD;
    let value = engine.encode(&data);
    assert_eq!(
        Message::Update {
            key: key.clone(),
            value: data.into()
        }
        .to_string(),
        format!("UPDATE {} {}", key, value)
    )
}

#[test]
fn test_message_from_str() {
    let got: Message = Message::from_str("HELLO").unwrap();
    assert_eq!(got, Message::Hello);

    let got: Message = Message::from_str("NOTFOUND").unwrap();
    assert_eq!(got, Message::NotFound);

    let key = "MYAWESOMEKEY".to_string();
    let got: Message = Message::from_str(&format!("CLOSE {}", key.clone())).unwrap();
    assert_eq!(got, Message::Close { key: key.clone() });

    let data: Vec<u8> = vec![1, 0, 13, 12];
    let engine = base64::engine::general_purpose::STANDARD;
    let value = engine.encode(&data);
    let got: Message = Message::from_str(&format!("UPDATE {} {}", key, value)).unwrap();
    assert_eq!(
        got,
        Message::Update {
            key: key.clone(),
            value: data.into()
        }
    )
}
