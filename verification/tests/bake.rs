use colby_editor::bake::{
    bake, gathered, grouped, plain, sides, standing, Face, Key, Place, Side, Walls,
};
use colby_editor::make::block;
use colby_editor::select::Pick;
use colby_editor::world::{
    BodyKind, Entity, EntityId, ShapeKind, Transform, Triple, World,
};

/// Three fractions, by their bits.
fn triple(x: f32, y: f32, z: f32) -> Triple {
    Triple { x: x.to_bits(), y: y.to_bits(), z: z.to_bits() }
}

/// A world with blocks in a row along x, each one unit, touching.
fn row(many: u8) -> (World, Vec<Pick>) {
    let mut world = World::new();
    let mut picks = Vec::new();

    for step in 0..many {
        let put = Transform::at(triple(f32::from(step), 0.5, 0.0));
        picks.extend(block(&mut world, put));
    }

    (world, picks)
}

/// The faces of a box about a middle, all of it in half units.
fn boxed(middle: [i64; 3], wide: [i64; 3]) -> [Face; 6] {
    [(0, -1), (0, 1), (1, -1), (1, 1), (2, -1), (2, 1)].map(|(axis, way): (usize, i64)| {
        let (across, along) = ((axis + 1) % 3, (axis + 2) % 3);
        let mut face = middle;
        face[axis] += way * wide[axis];
        let mut normal = [0.0f32; 3];
        normal[axis] = way as f32;
        let corners = [(-1, -1), (1, -1), (1, 1), (-1, 1)].map(|(one, other)| {
            let mut corner = face;
            corner[across] += one * wide[across];
            corner[along] += other * way * wide[along];
            corner
        });
        let key = |at: [i64; 3]| Key { x: at[0], y: at[1], z: at[2] };
        let point =
            |at: [i64; 3]| triple(at[0] as f32 / 2.0, at[1] as f32 / 2.0, at[2] as f32 / 2.0);

        Face {
            place: Place {
                middle: key(face),
                first: key(corners[0]),
                second: key(corners[1]),
                third: key(corners[2]),
                fourth: key(corners[3]),
            },
            normal: triple(normal[0], normal[1], normal[2]),
            first: point(corners[0]),
            second: point(corners[1]),
            third: point(corners[2]),
            fourth: point(corners[3]),
        }
    })
}

/// The six faces of a block that stands unturned at a whole place along x.
fn walls_of(world: &World, id: EntityId) -> Walls {
    let held = world.scene.entities.get(id).expect("alive");
    let along = f32::from_bits(held.transform.position.x) as i64;

    Walls { block: id, faces: boxed([2 * along, 1, 0], [1, 1, 1]) }
}

/// The faces of every block a bake would take.
fn walls(world: &World, picks: &Vec<Pick>) -> Vec<Walls> {
    gathered(world, picks).into_iter().map(|id| walls_of(world, id)).collect()
}

/// The sides of every block a bake would take.
fn sides_picked(world: &World, picks: &Vec<Pick>) -> Vec<Side> {
    sides(world, &gathered(world, picks), &walls(world, picks))
}

#[test]
fn one_block_bakes_into_six_faces() {
    let (mut world, picks) = row(1);
    let walls = walls(&world, &picks);
    let baked = bake(&mut world, &picks, &walls, "room");

    assert_eq!(baked.blocks, 1);
    assert_eq!(baked.buried, 0, "a block on its own has nothing against it");
    assert_eq!(baked.triangles, 12, "six faces, two triangles each");
    assert_eq!(baked.made.len(), 1, "one material, one entity");
}

#[test]
fn two_blocks_side_by_side_lose_the_faces_between_them() {
    let (mut world, picks) = row(2);
    let walls = walls(&world, &picks);
    let baked = bake(&mut world, &picks, &walls, "room");

    assert_eq!(baked.blocks, 2);
    assert_eq!(baked.buried, 2, "the two faces that meet, both of them");
    assert_eq!(baked.triangles, 20, "ten faces of the twelve");
}

#[test]
fn a_row_of_blocks_keeps_only_its_skin() {
    let (mut world, picks) = row(10);
    let walls = walls(&world, &picks);
    let baked = bake(&mut world, &picks, &walls, "room");

    // six faces each, less two for every join
    assert_eq!(baked.buried, 18, "nine joins, two faces each");
    assert_eq!(baked.triangles, (10 * 6 - 18) * 2);
}

#[test]
fn the_blocks_are_gone_and_one_thing_stands_in_their_place() {
    let (mut world, picks) = row(6);

    assert_eq!(world.scene.entities.len(), 6, "six blocks");
    assert_eq!(world.scene.bodies.len(), 6, "and six bodies");

    let walls = walls(&world, &picks);
    let baked = bake(&mut world, &picks, &walls, "room");

    assert_eq!(world.scene.entities.len(), 1, "one entity for the one material");
    assert_eq!(world.scene.bodies.len(), 1, "and one body, which is most of the point");
    assert_eq!(baked.made.len(), 1);

    let [Pick::Entity(entity)] = baked.made[..] else {
        panic!("one entity: {:?}", baked.made);
    };
    let look = world.scene.entities.get(entity).expect("it draws something");

    assert_ne!(look.mesh, colby_editor::make::CUBE, "and it is not a block any more");
    assert_ne!(
        world.meshes.find("maps/room/default"),
        0,
        "the mesh is registered under the name the files will be written from"
    );
}

#[test]
fn the_body_left_behind_collides_against_the_mesh() {
    let (mut world, picks) = row(3);
    let walls = walls(&world, &picks);

    bake(&mut world, &picks, &walls, "room");

    let id = world.scene.bodies.ids()[0];
    let held = world.scene.bodies.get(id).expect("one body stands");

    assert_eq!(held.kind, BodyKind::Static, "a room does not fall");
    assert_eq!(held.shape, ShapeKind::Mesh, "and it collides against what is drawn");
    assert_eq!(held.collider, world.meshes.find("maps/room/default"));
}

#[test]
fn baking_nothing_makes_nothing() {
    let mut world = World::new();
    let baked = bake(&mut world, &Vec::new(), &Vec::new(), "room");

    assert_eq!(baked.blocks, 0);
    assert_eq!(baked.made.len(), 0);
    assert_eq!(world.scene.entities.len(), 0, "and the world is untouched");
}

#[test]
fn an_empty_selection_bakes_every_block_there_is() {
    let (mut world, _) = row(4);
    let walls = walls(&world, &Vec::new());
    let baked = bake(&mut world, &Vec::new(), &walls, "room");

    assert_eq!(baked.blocks, 4, "all of them, because nothing was picked");
}

#[test]
fn a_thing_that_is_not_a_block_is_not_baked() {
    let (mut world, mut picks) = row(2);
    let sphere = world.meshes.insert("sphere", true);
    let mut look = Entity::plain(Transform::unmoved());
    look.mesh = sphere;
    let other = world.scene.entities.spawn("ball", Vec::new(), look);
    picks.push(Pick::Entity(other));

    let walls = walls(&world, &picks);
    let baked = bake(&mut world, &picks, &walls, "room");

    assert_eq!(baked.blocks, 2, "the two cubes and not the ball");
    assert!(world.scene.entities.alive(other), "and the ball is still there afterwards");
}

#[test]
fn two_materials_are_two_meshes_and_two_files() {
    let (mut world, picks) = row(2);
    let brass = world.materials.insert("materials/brass", false);

    let Pick::Entity(first) = picks[0] else {
        panic!("a block: {picks:?}");
    };
    let mut look = world.scene.entities.get(first).expect("it draws");
    look.material = brass;
    world.scene.entities.set(first, look);

    let walls = walls(&world, &picks);
    let baked = bake(&mut world, &picks, &walls, "room");

    assert_eq!(baked.made.len(), 2, "one entity per material");
    assert_ne!(world.meshes.find("maps/room/brass"), 0, "named by its material");
    assert_ne!(world.meshes.find("maps/room/default"), 0);
    assert_eq!(
        baked.buried, 2,
        "and the faces between them are still buried, because a face is hidden by what \
         stands against it whatever that is made of"
    );
}

#[test]
fn the_faces_are_parted_by_material_and_lose_none() {
    let (world, picks) = row(2);
    let mut sides = sides_picked(&world, &picks);
    let (open, buried) = standing(&sides);
    assert_eq!((open.len(), buried), (10, 2));

    for side in sides.iter_mut().take(3) {
        side.material = 7;
    }
    let meshes = grouped(&sides);
    assert_eq!(meshes.len(), 2);
    for mesh in &meshes {
        assert_eq!(mesh.vertices.len() / 4, mesh.indices.len() / 6, "two triangles a face");
        assert!(mesh.indices.iter().all(|index| (*index as usize) < mesh.vertices.len()));
    }
    assert_eq!(meshes.iter().map(|mesh| mesh.indices.len() / 3).sum::<usize>(), 24);
}

#[test]
fn a_material_goes_by_the_last_part_of_its_name() {
    let mut world = World::new();
    let brass = world.materials.insert("materials/brass", false);

    assert_eq!(plain(&world.materials, brass), "brass");
    assert_eq!(plain(&world.materials, 0), "default");
}

#[test]
fn a_small_face_against_a_large_one_leaves_both() {
    // a block of one against a block of three: the two faces that meet have one
    // middle and not the same corners
    let (mut world, picks) = row(2);
    let ids = gathered(&world, &picks);
    let walls = vec![
        Walls { block: ids[0], faces: boxed([0, 0, 0], [1, 1, 1]) },
        Walls { block: ids[1], faces: boxed([4, 0, 0], [3, 3, 3]) },
    ];

    assert_eq!(
        standing(&sides(&world, &ids, &walls)).1,
        0,
        "neither is hidden by the other"
    );
    let baked = bake(&mut world, &picks, &walls, "room");
    assert_eq!(baked.blocks, 2);
    assert_eq!(baked.buried, 0);
    assert_eq!(baked.triangles, 24, "all twelve faces");
}

#[test]
fn a_world_has_the_cube_before_anything_is_registered() {
    let mut world = World::new();

    assert_eq!(world.meshes.find("cube"), colby_editor::make::CUBE);
    assert_ne!(
        world.meshes.insert("meshes/crystal", true),
        colby_editor::make::CUBE,
        "the first mesh anybody registers is not the cube"
    );
}

#[test]
fn a_world_has_room_for_three_hundred_blocks_and_not_for_eleven_hundred() {
    let mut world = World::new();
    let mut stood = 0;

    for _ in 0..1100 {
        stood += block(&mut world, Transform::unmoved()).len();
    }

    assert!(stood > 300, "a room of three hundred fits");
    assert_eq!(stood, 1024, "and eleven hundred do not");
}

#[test]
fn every_block_gives_six_faces_of_its_own_material() {
    let (mut world, picks) = row(3);
    let ids = gathered(&world, &picks);
    for (material, id) in [7u32, 8, 9].into_iter().zip(&ids) {
        let mut look = world.scene.entities.get(*id).expect("it draws");
        look.material = material;
        world.scene.entities.set(*id, look);
    }
    let walls = walls(&world, &picks);
    let given = sides(&world, &ids, &walls);

    assert_eq!(given.len(), 18);
    for (index, side) in given.iter().enumerate() {
        assert_eq!(side.material, 7 + (index / 6) as u32);
        assert_eq!(side.place, walls[index / 6].faces[index % 6].place);
    }
    assert_eq!(sides(&world, &ids[1..2].to_vec(), &walls).len(), 6, "of those a bake is about");
}
